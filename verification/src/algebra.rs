//! The mathematics of a quadratic `a·x² + b·x + c` over the real numbers.
//!
//! Everything here is ghost code: the formulas that the executable code is
//! proved against, and the algebraic laws that connect them.

use vstd::prelude::*;

verus! {

/// The discriminant `b² − 4ac`.
pub open spec fn discriminant_of(a: real, b: real, c: real) -> real {
    b * b - 4real * a * c
}

/// The value of the polynomial at `x`.
pub open spec fn parabola(a: real, b: real, c: real, x: real) -> real {
    a * x * x + b * x + c
}

/// The abscissa of the turning point, `−b / (2a)`.
pub open spec fn vertex_x(a: real, b: real) -> real {
    -b / (2real * a)
}

/// The ordinate of the turning point: the polynomial evaluated at `vertex_x`.
pub open spec fn vertex_y(a: real, b: real, c: real) -> real {
    parabola(a, b, c, vertex_x(a, b))
}

/// `s` is the non-negative square root of `x`.
pub open spec fn is_sqrt(s: real, x: real) -> bool {
    s >= 0real && s * s == x
}

/// The absolute value of a real number.
pub open spec fn abs(x: real) -> real {
    if x >= 0real {
        x
    } else {
        -x
    }
}

/// `(−b + w) / (2a)`: the first root, where `w` is the square root of the discriminant.
pub open spec fn root_plus(a: real, b: real, w: real) -> real {
    (-b + w) / (2real * a)
}

/// `(−b − w) / (2a)`: the second root, where `w` is the square root of the discriminant.
pub open spec fn root_minus(a: real, b: real, w: real) -> real {
    (-b - w) / (2real * a)
}

/// `w / (2a)`: the imaginary part of the first complex root, where `w` is the
/// square root of the absolute value of the discriminant.
pub open spec fn imaginary_part(a: real, w: real) -> real {
    w / (2real * a)
}

/// The integer nearest to `x`; a value half-way between two integers goes to
/// the one farther from zero.
pub open spec fn round_half_away(x: real) -> int {
    if x >= 0real {
        (x + 1real / 2real).floor()
    } else {
        -((-x + 1real / 2real).floor())
    }
}

/// `x` rounded to two decimal places.
pub open spec fn round2(x: real) -> real {
    round_half_away(100real * x) as real / 100real
}

/// The smaller of two reals.
pub open spec fn min2(x: real, y: real) -> real {
    if x <= y {
        x
    } else {
        y
    }
}

/// The larger of two reals.
pub open spec fn max2(x: real, y: real) -> real {
    if x >= y {
        x
    } else {
        y
    }
}

/// The smallest of three reals.
pub open spec fn min3(x: real, y: real, z: real) -> real {
    min2(min2(x, y), z)
}

/// The largest of three reals.
pub open spec fn max3(x: real, y: real, z: real) -> real {
    max2(max2(x, y), z)
}

/// Multiplying a quotient by its divisor gives back the dividend.
pub proof fn lemma_div_cancel(n: real, d: real)
    requires
        d != 0real,
    ensures
        d * (n / d) == n,
        (n / d) * d == n,
{
    assert(d * (n / d) == n && (n / d) * d == n) by (nonlinear_arith)
        requires
            d != 0real,
    ;
}

/// The one number that multiplied by `d` gives `n` is the quotient `n / d`.
pub proof fn lemma_quotient_unique(n: real, d: real, q: real)
    requires
        d != 0real,
        d * q == n,
    ensures
        q == n / d,
{
    assert(q == n / d) by (nonlinear_arith)
        requires
            d != 0real,
            d * q == n,
    ;
}

/// A product with a non-zero factor vanishes only if the other factor does.
pub proof fn lemma_zero_factor(k: real, p: real)
    requires
        k != 0real,
        k * p == 0real,
    ensures
        p == 0real,
{
    assert(p == 0real) by (nonlinear_arith)
        requires
            k != 0real,
            k * p == 0real,
    ;
}

/// The discriminant does not depend on the order in which `a` and `c` enter
/// the product `4ac`, nor on how that product is grouped, nor on the sign of `b`.
pub proof fn lemma_discriminant_order(a: real, b: real, c: real)
    ensures
        discriminant_of(a, b, c) == discriminant_of(c, b, a),
        discriminant_of(a, b, c) == discriminant_of(a, -b, c),
        discriminant_of(a, b, c) == b * b - a * (4real * c),
        discriminant_of(a, b, c) == b * b - (c * a) * 4real,
        discriminant_of(a, b, c) == -(4real * a * c - b * b),
{
    assert(4real * a * c == 4real * c * a) by (nonlinear_arith);
    assert(4real * a * c == a * (4real * c)) by (nonlinear_arith);
    assert(4real * a * c == (c * a) * 4real) by (nonlinear_arith);
    assert(b * b == (-b) * (-b)) by (nonlinear_arith);
}

/// A number has at most one non-negative square root.
pub proof fn lemma_sqrt_unique(s: real, t: real, x: real)
    requires
        is_sqrt(s, x),
        is_sqrt(t, x),
    ensures
        s == t,
{
    assert(s == t) by (nonlinear_arith)
        requires
            s >= 0real,
            t >= 0real,
            s * s == t * t,
    ;
}

/// Only a non-negative number has a square root.
pub proof fn lemma_sqrt_sign(s: real, x: real)
    requires
        is_sqrt(s, x),
    ensures
        x >= 0real,
        x > 0real <==> s > 0real,
{
    assert(s * s >= 0real && (s * s > 0real <==> s > 0real)) by (nonlinear_arith)
        requires
            s >= 0real,
    ;
}

/// Rounding moves a number by at most one half.
pub proof fn lemma_round_half_away_near(x: real)
    ensures
        abs(round_half_away(x) as real - x) <= 1real / 2real,
{
}

/// Rounding is odd: the rounded value of `−x` is the negation of that of `x`.
pub proof fn lemma_round_half_away_odd(x: real)
    ensures
        round_half_away(-x) == -round_half_away(x),
{
}

/// An integer `k` with `k ≤ y + ½ < k + 1` is the rounded value of a
/// non-negative `y`.
pub proof fn lemma_round_half_away_is(y: real, k: int)
    requires
        y >= 0real,
        k as real <= y + 1real / 2real,
        y + 1real / 2real < (k + 1) as real,
    ensures
        round_half_away(y) == k,
{
}

/// A value rounded to two decimals lies within 0.005 of the value.
pub proof fn lemma_round2_near(x: real)
    ensures
        abs(round2(x) - x) <= 1real / 200real,
{
    lemma_round_half_away_near(100real * x);
}

/// The polynomial in vertex form: `a·(x − xv)² + yv`.
pub proof fn lemma_vertex_form(a: real, b: real, c: real, x: real)
    requires
        a != 0real,
    ensures
        parabola(a, b, c, x) == a * (x - vertex_x(a, b)) * (x - vertex_x(a, b)) + vertex_y(
            a,
            b,
            c,
        ),
{
    let xv = vertex_x(a, b);
    lemma_div_cancel(-b, 2real * a);
    assert(a * x * x + b * x + c == a * (x - xv) * (x - xv) + (a * xv * xv + b * xv + c))
        by (nonlinear_arith)
        requires
            (2real * a) * xv == -b,
    ;
}

/// The ordinate of the vertex is `−D / (4a)`.
pub proof fn lemma_vertex_y_closed_form(a: real, b: real, c: real)
    requires
        a != 0real,
    ensures
        vertex_y(a, b, c) == -discriminant_of(a, b, c) / (4real * a),
{
    let xv = vertex_x(a, b);
    let yv = vertex_y(a, b, c);
    let u = 2real * a * xv;
    lemma_div_cancel(-b, 2real * a);
    assert(u == -b);
    assert((4real * a) * (a * xv * xv + b * xv + c) == (2real * a * xv) * (2real * a * xv) + 2real
        * b * (2real * a * xv) + 4real * a * c) by (nonlinear_arith);
    assert(u * u + 2real * b * u == -(b * b)) by (nonlinear_arith)
        requires
            u == -b,
    ;
    assert((4real * a) * yv == -discriminant_of(a, b, c));
    lemma_quotient_unique(-discriminant_of(a, b, c), 4real * a, yv);
}

/// A number `x` with `2a·x = −b ± w`, where `w² = D`, solves the equation.
proof fn lemma_solves(a: real, b: real, c: real, x: real, u: real)
    requires
        a != 0real,
        2real * a * x == u,
        (u + b) * (u + b) == discriminant_of(a, b, c),
    ensures
        parabola(a, b, c, x) == 0real,
{
    let p = a * x * x + b * x + c;
    assert((4real * a) * (a * x * x + b * x + c) == (2real * a * x) * (2real * a * x) + 2real * b
        * (2real * a * x) + 4real * a * c) by (nonlinear_arith);
    assert(u * u + 2real * b * u == (u + b) * (u + b) - b * b) by (nonlinear_arith);
    assert((4real * a) * p == 0real);
    lemma_zero_factor(4real * a, p);
}

/// Both real roots solve the equation.
pub proof fn lemma_real_roots_solve(a: real, b: real, c: real, w: real)
    requires
        a != 0real,
        is_sqrt(w, discriminant_of(a, b, c)),
    ensures
        parabola(a, b, c, root_plus(a, b, w)) == 0real,
        parabola(a, b, c, root_minus(a, b, w)) == 0real,
{
    lemma_div_cancel(-b + w, 2real * a);
    lemma_div_cancel(-b - w, 2real * a);
    assert((-w) * (-w) == w * w) by (nonlinear_arith);
    lemma_solves(a, b, c, root_plus(a, b, w), -b + w);
    lemma_solves(a, b, c, root_minus(a, b, w), -b - w);
}

/// Where the discriminant is positive the two real roots differ: the first
/// lies above the second where `a` is positive, below it where `a` is negative.
pub proof fn lemma_real_roots_distinct(a: real, b: real, c: real, w: real)
    requires
        a != 0real,
        discriminant_of(a, b, c) > 0real,
        is_sqrt(w, discriminant_of(a, b, c)),
    ensures
        root_plus(a, b, w) != root_minus(a, b, w),
        a > 0real ==> root_minus(a, b, w) < root_plus(a, b, w),
        a < 0real ==> root_plus(a, b, w) < root_minus(a, b, w),
{
    let x1 = root_plus(a, b, w);
    let x2 = root_minus(a, b, w);
    let k = 2real * a;
    lemma_sqrt_sign(w, discriminant_of(a, b, c));
    lemma_div_cancel(-b + w, k);
    lemma_div_cancel(-b - w, k);
    assert(k * (x1 - x2) == k * x1 - k * x2) by (nonlinear_arith);
    assert(k * (x1 - x2) > 0real ==> ((k > 0real ==> x1 - x2 > 0real) && (k < 0real ==> x1 - x2
        < 0real))) by (nonlinear_arith);
}

/// Where the discriminant is zero its square root is zero, and both root
/// formulas give the same number: `−b / (2a)`.
pub proof fn lemma_repeated_root(a: real, b: real, c: real, w: real)
    requires
        a != 0real,
        discriminant_of(a, b, c) == 0real,
        is_sqrt(w, discriminant_of(a, b, c)),
    ensures
        w == 0real,
        root_plus(a, b, w) == vertex_x(a, b),
        root_minus(a, b, w) == vertex_x(a, b),
        root_plus(a, b, w) == root_minus(a, b, w),
{
    if w != 0real {
        lemma_zero_factor(w, w);
    }
}

/// The two real roots lie symmetrically about the vertex: their mean is the
/// vertex abscissa, and the mean of the rounded roots is within 0.01 of the
/// rounded vertex abscissa.
pub proof fn lemma_roots_mean_is_vertex(a: real, b: real, c: real, w: real)
    requires
        a != 0real,
        is_sqrt(w, discriminant_of(a, b, c)),
    ensures
        (root_plus(a, b, w) + root_minus(a, b, w)) / 2real == vertex_x(a, b),
        abs(
            (round2(root_plus(a, b, w)) + round2(root_minus(a, b, w))) / 2real - round2(
                vertex_x(a, b),
            ),
        ) <= 1real / 100real,
{
    let x1 = root_plus(a, b, w);
    let x2 = root_minus(a, b, w);
    let xv = vertex_x(a, b);
    lemma_div_cancel(-b + w, 2real * a);
    lemma_div_cancel(-b - w, 2real * a);
    lemma_div_cancel(-b, 2real * a);
    assert((2real * a) * (x1 + x2 - 2real * xv) == (2real * a) * x1 + (2real * a) * x2 - 2real * ((
    2real * a) * xv)) by (nonlinear_arith);
    lemma_zero_factor(2real * a, x1 + x2 - 2real * xv);
    lemma_round2_near(x1);
    lemma_round2_near(x2);
    lemma_round2_near(xv);
}

/// The complex pair `re ± im·i` solves the equation: substituting it, the real
/// part `a·(re² − im²) + b·re + c` and the imaginary part `±(2a·re·im + b·im)`
/// of the result both vanish.
pub proof fn lemma_complex_roots_solve(a: real, b: real, c: real, w: real)
    requires
        a != 0real,
        discriminant_of(a, b, c) < 0real,
        is_sqrt(w, -discriminant_of(a, b, c)),
    ensures
        ({
            let re = vertex_x(a, b);
            let im = imaginary_part(a, w);
            &&& a * (re * re - im * im) + b * re + c == 0real
            &&& 2real * a * re * im + b * im == 0real
            &&& 2real * a * re * (-im) + b * (-im) == 0real
        }),
{
    let re = vertex_x(a, b);
    let im = imaginary_part(a, w);
    let u = 2real * a * re;
    let v = 2real * a * im;
    lemma_div_cancel(-b, 2real * a);
    lemma_div_cancel(w, 2real * a);
    assert(u == -b);
    assert(v == w);
    let p = a * (re * re - im * im) + b * re + c;
    assert((4real * a) * (a * (re * re - im * im) + b * re + c) == (2real * a * re) * (2real * a
        * re) - (2real * a * im) * (2real * a * im) + 2real * b * (2real * a * re) + 4real * a * c)
        by (nonlinear_arith);
    assert(u * u + 2real * b * u == -(b * b)) by (nonlinear_arith)
        requires
            u == -b,
    ;
    assert((4real * a) * p == 0real);
    lemma_zero_factor(4real * a, p);
    assert(2real * a * re * im + b * im == (2real * a * re + b) * im) by (nonlinear_arith);
    assert(2real * a * re * (-im) + b * (-im) == (2real * a * re + b) * (-im)) by (nonlinear_arith);
    assert((u + b) * im == 0real && (u + b) * (-im) == 0real) by (nonlinear_arith)
        requires
            u + b == 0real,
    ;
}

} // verus!
