//! The rule by which the plot chooses its ranges, over the real numbers.
//!
//! The horizontal range is ten wide about the vertex where there is no root
//! to show: where the roots are complex, or a double root sits at the origin.
//! Otherwise it spans the roots and the vertex, widened by a fifth of the span
//! on each side.  The vertical range spans the vertex and the values at both
//! ends of the horizontal range, widened in the same way.

use vstd::prelude::*;
use crate::algebra::{
    abs,
    discriminant_of,
    is_sqrt,
    lemma_div_cancel,
    lemma_sqrt_sign,
    lemma_vertex_form,
    lemma_vertex_y_closed_form,
    lemma_zero_factor,
    max3,
    min3,
    parabola,
    root_minus,
    root_plus,
    vertex_x,
    vertex_y,
};
use crate::reals::lemma_scaled_order;

verus! {

/// Half the width of the horizontal range about the vertex.
pub open spec fn half_window() -> real {
    5real
}

/// The range from `lo` to `hi`, widened on each side by a fifth of its width.
pub open spec fn padded(lo: real, hi: real) -> (real, real) {
    (lo - (hi - lo) / 5real, hi + (hi - lo) / 5real)
}

/// The horizontal range of the plot, from the roots `x1` and `x2` (for a
/// complex pair: their common real part) and the vertex abscissa `xv`.
pub open spec fn x_range(complex: bool, x1: real, x2: real, xv: real) -> (real, real) {
    if complex || (x1 == 0real && x2 == 0real) {
        (xv - half_window(), xv + half_window())
    } else {
        padded(min3(x1, x2, xv), max3(x1, x2, xv))
    }
}

/// The vertical range of the plot, from the ends of the horizontal range and
/// the vertex ordinate `yv`.
pub open spec fn y_range(a: real, b: real, c: real, x_min: real, x_max: real, yv: real) -> (
    real,
    real,
) {
    let y0 = parabola(a, b, c, x_min);
    let y1 = parabola(a, b, c, x_max);
    padded(min3(yv, y0, y1), max3(yv, y0, y1))
}

/// The first root as the plot takes it: `(−b + w) / (2a)` where the
/// discriminant is positive, else `−b / (2a)`.  `w` is the square root of the
/// discriminant's absolute value.
pub open spec fn plotted_x1(a: real, b: real, c: real, w: real) -> real {
    if discriminant_of(a, b, c) > 0real {
        root_plus(a, b, w)
    } else {
        vertex_x(a, b)
    }
}

/// The second root as the plot takes it: `(−b − w) / (2a)` where the
/// discriminant is positive, else `−b / (2a)`.
pub open spec fn plotted_x2(a: real, b: real, c: real, w: real) -> real {
    if discriminant_of(a, b, c) > 0real {
        root_minus(a, b, w)
    } else {
        vertex_x(a, b)
    }
}

/// The horizontal range of the plot of `a·x² + b·x + c`.
pub open spec fn x_range_of(a: real, b: real, c: real, w: real) -> (real, real) {
    x_range(
        discriminant_of(a, b, c) < 0real,
        plotted_x1(a, b, c, w),
        plotted_x2(a, b, c, w),
        vertex_x(a, b),
    )
}

/// The vertical range of the plot of `a·x² + b·x + c`.
pub open spec fn y_range_of(a: real, b: real, c: real, w: real) -> (real, real) {
    let xs = x_range_of(a, b, c, w);
    y_range(a, b, c, xs.0, xs.1, vertex_y(a, b, c))
}

/// The value of the polynomial at a distance `u` from the vertex abscissa is
/// `yv + t`, where `(100a)·t = (10a·u)²`.
proof fn lemma_value_beside_vertex(a: real, b: real, c: real, x: real, t: real)
    requires
        a != 0real,
        t == a * (x - vertex_x(a, b)) * (x - vertex_x(a, b)),
    ensures
        parabola(a, b, c, x) == vertex_y(a, b, c) + t,
        (100real * a) * t == ((10real * a) * (x - vertex_x(a, b))) * ((10real * a) * (x
            - vertex_x(a, b))),
{
    lemma_vertex_form(a, b, c, x);
    let u = x - vertex_x(a, b);
    assert((100real * a) * (a * u * u) == ((10real * a) * u) * ((10real * a) * u))
        by (nonlinear_arith);
}

/// A factor distributes over the ends of a widened range.
proof fn lemma_scale_padded(k: real, lo: real, hi: real)
    ensures
        k * (lo - (hi - lo) / 5real) == (6real * (k * lo) - k * hi) / 5real,
        k * (hi + (hi - lo) / 5real) == (6real * (k * hi) - k * lo) / 5real,
{
    assert(k * (lo - (hi - lo) / 5real) == (6real * (k * lo) - k * hi) / 5real)
        by (nonlinear_arith);
    assert(k * (hi + (hi - lo) / 5real) == (6real * (k * hi) - k * lo) / 5real)
        by (nonlinear_arith);
}

/// The square of `±7w` is `49·w²`.
proof fn lemma_square_of_seven(m: real, w: real)
    requires
        m == 7real * w || m == -7real * w,
    ensures
        m * m == 49real * (w * w),
{
    assert(m * m == 49real * (w * w)) by (nonlinear_arith)
        requires
            m == 7real * w || m == -7real * w,
    ;
}

/// The ranges about the vertex, where no root is shown: the horizontal range
/// is ten wide, and the vertical range reaches from `yv − 5a` to `yv + 30a`
/// where the parabola opens upward, from `yv + 30a` to `yv − 5a` where it
/// opens downward.
pub proof fn lemma_centered_ranges(a: real, b: real, c: real, w: real)
    requires
        a != 0real,
        discriminant_of(a, b, c) < 0real || (discriminant_of(a, b, c) == 0real && b == 0real),
    ensures
        x_range_of(a, b, c, w) == (vertex_x(a, b) - 5real, vertex_x(a, b) + 5real),
        a > 0real ==> y_range_of(a, b, c, w) == (
            vertex_y(a, b, c) - 5real * a,
            vertex_y(a, b, c) + 30real * a,
        ),
        a < 0real ==> y_range_of(a, b, c, w) == (
            vertex_y(a, b, c) + 30real * a,
            vertex_y(a, b, c) - 5real * a,
        ),
{
    let xv = vertex_x(a, b);
    let yv = vertex_y(a, b, c);
    lemma_div_cancel(-b, 2real * a);
    if b == 0real {
        lemma_zero_factor(2real * a, xv);
    }
    let t0 = a * ((xv - 5real) - xv) * ((xv - 5real) - xv);
    let t1 = a * ((xv + 5real) - xv) * ((xv + 5real) - xv);
    lemma_value_beside_vertex(a, b, c, xv - 5real, t0);
    lemma_value_beside_vertex(a, b, c, xv + 5real, t1);
    assert(t0 == 25real * a) by (nonlinear_arith)
        requires
            t0 == a * ((xv - 5real) - xv) * ((xv - 5real) - xv),
    ;
    assert(t1 == 25real * a) by (nonlinear_arith)
        requires
            t1 == a * ((xv + 5real) - xv) * ((xv + 5real) - xv),
    ;
}

/// The ranges about a double root away from the origin: both have no width.
pub proof fn lemma_double_root_ranges(a: real, b: real, c: real, w: real)
    requires
        a != 0real,
        discriminant_of(a, b, c) == 0real,
        b != 0real,
    ensures
        x_range_of(a, b, c, w) == (vertex_x(a, b), vertex_x(a, b)),
        y_range_of(a, b, c, w) == (0real, 0real),
        vertex_y(a, b, c) == 0real,
{
    let xv = vertex_x(a, b);
    lemma_div_cancel(-b, 2real * a);
    if xv == 0real {
        assert((2real * a) * xv == 0real) by (nonlinear_arith)
            requires
                xv == 0real,
        ;
    }
    lemma_vertex_y_closed_form(a, b, c);
    lemma_div_cancel(0real, 4real * a);
    lemma_zero_factor(4real * a, 0real / (4real * a));
}

/// The ranges about two real roots.  With `w` the square root of the
/// discriminant `D`, the horizontal range has the ends `(−5b ∓ 7w) / (10a)`,
/// and the vertical range the ends `−174·D / (500a)` and `169·D / (500a)`;
/// the sign of `a` says which end is the lower one.
pub proof fn lemma_span_ranges(a: real, b: real, c: real, w: real)
    requires
        a != 0real,
        discriminant_of(a, b, c) > 0real,
        is_sqrt(w, discriminant_of(a, b, c)),
    ensures
        ({
            let xs = x_range_of(a, b, c, w);
            let ys = y_range_of(a, b, c, w);
            let d = discriminant_of(a, b, c);
            &&& a > 0real ==> {
                &&& (10real * a) * xs.0 == -5real * b - 7real * w
                &&& (10real * a) * xs.1 == -5real * b + 7real * w
                &&& (500real * a) * ys.0 == -174real * d
                &&& (500real * a) * ys.1 == 169real * d
            }
            &&& a < 0real ==> {
                &&& (10real * a) * xs.0 == -5real * b + 7real * w
                &&& (10real * a) * xs.1 == -5real * b - 7real * w
                &&& (500real * a) * ys.0 == 169real * d
                &&& (500real * a) * ys.1 == -174real * d
            }
        }),
{
    let d = discriminant_of(a, b, c);
    let x1 = root_plus(a, b, w);
    let x2 = root_minus(a, b, w);
    let xv = vertex_x(a, b);
    let yv = vertex_y(a, b, c);
    let k = 2real * a;
    lemma_sqrt_sign(w, d);
    lemma_div_cancel(-b + w, k);
    lemma_div_cancel(-b - w, k);
    lemma_div_cancel(-b, k);
    // The order of the roots and the vertex.
    if a > 0real {
        lemma_scaled_order(k, xv, x1);
        lemma_scaled_order(k, x2, xv);
    } else {
        assert((-k) * x1 == -(k * x1) && (-k) * x2 == -(k * x2) && (-k) * xv == -(k * xv))
            by (nonlinear_arith);
        lemma_scaled_order(-k, x1, xv);
        lemma_scaled_order(-k, xv, x2);
    }
    let xs = x_range_of(a, b, c, w);
    lemma_scale_padded(k, x1, x2);
    lemma_scale_padded(k, x2, x1);
    assert((10real * a) * xs.0 == 5real * (k * xs.0)) by (nonlinear_arith)
        requires
            k == 2real * a,
    ;
    assert((10real * a) * xs.1 == 5real * (k * xs.1)) by (nonlinear_arith)
        requires
            k == 2real * a,
    ;
    // The values at both ends of the horizontal range.
    let u0 = xs.0 - xv;
    let u1 = xs.1 - xv;
    let t0 = a * u0 * u0;
    let t1 = a * u1 * u1;
    lemma_value_beside_vertex(a, b, c, xs.0, t0);
    lemma_value_beside_vertex(a, b, c, xs.1, t1);
    assert((10real * a) * u0 == (10real * a) * xs.0 - 5real * (k * xv)) by (nonlinear_arith)
        requires
            k == 2real * a,
            u0 == xs.0 - xv,
    ;
    assert((10real * a) * u1 == (10real * a) * xs.1 - 5real * (k * xv)) by (nonlinear_arith)
        requires
            k == 2real * a,
            u1 == xs.1 - xv,
    ;
    let m0 = (10real * a) * u0;
    let m1 = (10real * a) * u1;
    lemma_square_of_seven(m0, w);
    lemma_square_of_seven(m1, w);
    assert((100real * a) * t0 == 49real * d);
    assert((100real * a) * t1 == 49real * d);
    lemma_vertex_y_closed_form(a, b, c);
    lemma_div_cancel(-d, 4real * a);
    assert((4real * a) * yv == -d);
    // The sign of the rise from the vertex to the ends.
    let h = 100real * a;
    assert(h * (t0 - t1) == h * t0 - h * t1) by (nonlinear_arith);
    lemma_zero_factor(h, t0 - t1);
    if a > 0real {
        assert(h * 0real == 0real);
        lemma_scaled_order(h, 0real, t0);
    } else {
        assert((-h) * t0 == -(h * t0)) by (nonlinear_arith);
        assert((-h) * 0real == 0real);
        lemma_scaled_order(-h, t0, 0real);
    }
    assert((500real * a) * (yv - t0 / 5real) == 125real * ((4real * a) * yv) - (100real * a)
        * t0) by (nonlinear_arith);
    assert((500real * a) * (yv + t0 + t0 / 5real) == 125real * ((4real * a) * yv) + 6real * ((
    100real * a) * t0)) by (nonlinear_arith);
    assert((500real * a) * ((yv + t0) - (yv - (yv + t0)) / 5real) == 125real * ((4real * a)
        * yv) + 6real * ((100real * a) * t0)) by (nonlinear_arith);
    assert((500real * a) * (yv + (yv - (yv + t0)) / 5real) == 125real * ((4real * a) * yv) - (
    100real * a) * t0) by (nonlinear_arith);
}

/// The ranges are in order, and the vertex lies within them: the left end is
/// not right of the vertex abscissa, nor the right end left of it, and the
/// lower end is not above the vertex ordinate, nor the upper end below it.
pub proof fn lemma_ranges_hold_vertex(a: real, b: real, c: real, w: real)
    requires
        a != 0real,
        is_sqrt(w, abs(discriminant_of(a, b, c))),
    ensures
        x_range_of(a, b, c, w).0 <= vertex_x(a, b) <= x_range_of(a, b, c, w).1,
        y_range_of(a, b, c, w).0 <= vertex_y(a, b, c) <= y_range_of(a, b, c, w).1,
{
    let d = discriminant_of(a, b, c);
    let xv = vertex_x(a, b);
    let yv = vertex_y(a, b, c);
    let xs = x_range_of(a, b, c, w);
    let ys = y_range_of(a, b, c, w);
    if d < 0real || (d == 0real && b == 0real) {
        lemma_centered_ranges(a, b, c, w);
    } else if d == 0real {
        lemma_double_root_ranges(a, b, c, w);
    } else {
        lemma_span_ranges(a, b, c, w);
        lemma_div_cancel(-b, 2real * a);
        lemma_vertex_y_closed_form(a, b, c);
        lemma_div_cancel(-d, 4real * a);
        let k = 10real * a;
        let h = 500real * a;
        assert(k * xv == 5real * ((2real * a) * xv)) by (nonlinear_arith)
            requires
                k == 10real * a,
        ;
        assert(h * yv == 125real * ((4real * a) * yv)) by (nonlinear_arith)
            requires
                h == 500real * a,
        ;
        if a > 0real {
            lemma_scaled_order(k, xs.0, xv);
            lemma_scaled_order(k, xv, xs.1);
            lemma_scaled_order(h, ys.0, yv);
            lemma_scaled_order(h, yv, ys.1);
        } else {
            assert((-k) * xs.0 == -(k * xs.0) && (-k) * xs.1 == -(k * xs.1) && (-k) * xv == -(k
                * xv)) by (nonlinear_arith);
            assert((-h) * ys.0 == -(h * ys.0) && (-h) * ys.1 == -(h * ys.1) && (-h) * yv == -(h
                * yv)) by (nonlinear_arith);
            lemma_scaled_order(-k, xs.0, xv);
            lemma_scaled_order(-k, xv, xs.1);
            lemma_scaled_order(-h, ys.0, yv);
            lemma_scaled_order(-h, yv, ys.1);
        }
    }
}

/// The abscissa of the `i`-th sample of the range from `x_min` to `x_max`,
/// which is sampled in a hundred equal steps.
pub open spec fn sample_x(x_min: real, x_max: real, i: int) -> real {
    x_min + (x_max - x_min) * (i as real / 100real)
}

/// The `i`-th point of the curve of `a·x² + b·x + c` as the plot samples it.
pub open spec fn sample_of(a: real, b: real, c: real, w: real, i: int) -> (real, real) {
    let xs = x_range_of(a, b, c, w);
    let x = sample_x(xs.0, xs.1, i);
    (x, parabola(a, b, c, x))
}

/// The samples of a plot about the vertex: with `k = 50 − i`, the `i`-th
/// lies at `xv − k / 10`, where the curve is at `yv + a·k² / 100`.
pub proof fn lemma_centered_sample(a: real, b: real, c: real, w: real, i: int)
    requires
        a != 0real,
        discriminant_of(a, b, c) < 0real || (discriminant_of(a, b, c) == 0real && b == 0real),
    ensures
        ({
            let pt = sample_of(a, b, c, w, i);
            let k = (50 - i) as real;
            &&& (10real * a) * pt.0 == -5real * b - a * k
            &&& pt.1 == vertex_y(a, b, c) + (a * (k * k)) / 100real
        }),
{
    let xv = vertex_x(a, b);
    let k = (50 - i) as real;
    let pt = sample_of(a, b, c, w, i);
    lemma_centered_ranges(a, b, c, w);
    lemma_div_cancel(-b, 2real * a);
    let xs = x_range_of(a, b, c, w);
    let t = i as real / 100real;
    assert((xs.1 - xs.0) * t == 10real * t) by (nonlinear_arith)
        requires
            xs.1 - xs.0 == 10real,
    ;
    assert(pt.0 == xv - k / 10real) by (nonlinear_arith)
        requires
            pt.0 == xv - 5real + 10real * t,
            k == 50real - i as real,
            t == (i as real) / 100real,
    ;
    assert((10real * a) * (xv - k / 10real) == 5real * ((2real * a) * xv) - a * k)
        by (nonlinear_arith);
    let t = a * (pt.0 - xv) * (pt.0 - xv);
    lemma_value_beside_vertex(a, b, c, pt.0, t);
    assert(t == (a * (k * k)) / 100real) by (nonlinear_arith)
        requires
            t == a * (pt.0 - xv) * (pt.0 - xv),
            pt.0 - xv == -(k / 10real),
    ;
}

/// The samples of a plot about a double root away from the origin: each is
/// the root itself.
pub proof fn lemma_double_root_sample(a: real, b: real, c: real, w: real, i: int)
    requires
        a != 0real,
        discriminant_of(a, b, c) == 0real,
        b != 0real,
    ensures
        sample_of(a, b, c, w, i) == (vertex_x(a, b), 0real),
{
    lemma_double_root_ranges(a, b, c, w);
    let t = i as real / 100real;
    assert(0real * t == 0real);
}

/// The samples of a plot about two real roots.  With `w` the square root of
/// the discriminant `D`, and `m` seven times `i − 50` where `a` is positive,
/// seven times `50 − i` where it is negative, the `i`-th sample lies at
/// `(−250b + m·w) / (500a)`, where the curve is at `(m² − 62500)·D / (250000a)`.
pub proof fn lemma_span_sample(a: real, b: real, c: real, w: real, i: int)
    requires
        a != 0real,
        discriminant_of(a, b, c) > 0real,
        is_sqrt(w, discriminant_of(a, b, c)),
    ensures
        ({
            let pt = sample_of(a, b, c, w, i);
            let m = if a > 0real {
                (7 * (i - 50)) as real
            } else {
                (7 * (50 - i)) as real
            };
            &&& (500real * a) * pt.0 == -250real * b + m * w
            &&& (250000real * a) * pt.1 == (m * m - 62500real) * discriminant_of(a, b, c)
        }),
{
    let d = discriminant_of(a, b, c);
    let xv = vertex_x(a, b);
    let yv = vertex_y(a, b, c);
    let xs = x_range_of(a, b, c, w);
    let pt = sample_of(a, b, c, w, i);
    let t = i as real / 100real;
    let m = if a > 0real {
        (7 * (i - 50)) as real
    } else {
        (7 * (50 - i)) as real
    };
    lemma_span_ranges(a, b, c, w);
    let p0 = (10real * a) * xs.0;
    let p1 = (10real * a) * xs.1;
    let diff = p1 - p0;
    let ir = i as real;
    assert((500real * a) * (xs.0 + (xs.1 - xs.0) * t) == 50real * ((10real * a) * xs.0) + 50real
        * (((10real * a) * xs.1 - (10real * a) * xs.0) * t)) by (nonlinear_arith);
    if a > 0real {
        assert(50real * (diff * t) == 7real * (ir * w)) by (nonlinear_arith)
            requires
                diff == 14real * w,
                t == ir / 100real,
        ;
        assert(m * w == 7real * (ir * w) - 350real * w) by (nonlinear_arith)
            requires
                m == 7real * ir - 350real,
        ;
    } else {
        assert(50real * (diff * t) == -(7real * (ir * w))) by (nonlinear_arith)
            requires
                diff == -(14real * w),
                t == ir / 100real,
        ;
        assert(m * w == 350real * w - 7real * (ir * w)) by (nonlinear_arith)
            requires
                m == 350real - 7real * ir,
        ;
    }
    assert((500real * a) * pt.0 == -250real * b + m * w);
    // The rise of the curve from the vertex to the sample.
    let u = pt.0 - xv;
    let rise = a * u * u;
    lemma_value_beside_vertex(a, b, c, pt.0, rise);
    lemma_div_cancel(-b, 2real * a);
    let n = (10real * a) * u;
    assert(50real * ((10real * a) * (pt.0 - xv)) == (500real * a) * pt.0 - 250real * ((2real
        * a) * xv)) by (nonlinear_arith);
    assert(50real * n == m * w);
    assert(2500real * (n * n) == (m * m) * (w * w)) by (nonlinear_arith)
        requires
            50real * n == m * w,
    ;
    assert((250000real * a) * rise == 2500real * ((100real * a) * rise)) by (nonlinear_arith);
    lemma_vertex_y_closed_form(a, b, c);
    lemma_div_cancel(-d, 4real * a);
    assert((250000real * a) * (yv + rise) == 62500real * ((4real * a) * yv) + (250000real * a)
        * rise) by (nonlinear_arith);
    assert((m * m - 62500real) * d == (m * m) * d - 62500real * d) by (nonlinear_arith);
}

} // verus!
