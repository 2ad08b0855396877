//! What the plot of a quadratic shows: its ranges and the roots it marks.
//!
//! The drawing itself is not done here.  These functions compute, exactly,
//! what a drawing is made from.

use vstd::prelude::*;
use crate::algebra::{
    abs,
    discriminant_of,
    is_sqrt,
    lemma_div_cancel,
    lemma_quotient_unique,
    lemma_real_roots_distinct,
    root_minus,
    root_plus,
    vertex_x,
    vertex_y,
};
use crate::equation::{lemma_vertex_micro, micro, QuadraticEquation, Roots};
use crate::number::{Ratio, MICROS_LIMIT};
use crate::range::{
    lemma_centered_ranges,
    lemma_centered_sample,
    lemma_double_root_ranges,
    lemma_double_root_sample,
    lemma_span_ranges,
    lemma_span_sample,
    plotted_x1,
    plotted_x2,
    sample_of,
    x_range_of,
    y_range_of,
};
use crate::reals::{lemma_cast_mul, lemma_div_neg};
use crate::surd::Surd;

verus! {

/// How many equal steps the curve is sampled in, from the left end of the
/// horizontal range to the right end.
pub const SAMPLE_STEPS: u32 = 100;

/// The rectangle that the plot shows.
#[derive(Clone, Copy, Debug)]
pub struct PlotBounds {
    pub x_min: Surd,
    pub x_max: Surd,
    pub y_min: Ratio,
    pub y_max: Ratio,
}

/// The abscissas at which the plot marks a root: none for a complex pair;
/// else the first root unless it is zero, then the second unless it is zero
/// or equal to the first.
pub open spec fn marked_roots(complex: bool, x1: real, x2: real) -> Seq<real> {
    if complex {
        Seq::<real>::empty()
    } else {
        let first = if x1 != 0real {
            seq![x1]
        } else {
            Seq::<real>::empty()
        };
        let second = if x2 != 0real && x2 != x1 {
            seq![x2]
        } else {
            Seq::<real>::empty()
        };
        first + second
    }
}

/// The abscissas at which the plot of `a·x² + b·x + c` marks a root.  `w` is
/// the square root of the discriminant's absolute value.
pub open spec fn marked_roots_of(a: real, b: real, c: real, w: real) -> Seq<real> {
    marked_roots(
        discriminant_of(a, b, c) < 0real,
        plotted_x1(a, b, c, w),
        plotted_x2(a, b, c, w),
    )
}

/// Each surd of `marks` stands for the number at its place in `values`.
pub open spec fn marks_denote(marks: Seq<Surd>, values: Seq<real>) -> bool {
    &&& marks.len() == values.len()
    &&& forall|i: int| 0 <= i < marks.len() ==> (#[trigger] marks[i]).denotes(values[i])
}

/// `p` holds the ranges of the plot of `a·x² + b·x + c`, where `w` is the
/// square root of the discriminant's absolute value.
pub open spec fn within(p: PlotBounds, a: real, b: real, c: real, w: real) -> bool {
    let xs = x_range_of(a, b, c, w);
    let ys = y_range_of(a, b, c, w);
    &&& p.x_min.denotes(xs.0)
    &&& p.x_max.denotes(xs.1)
    &&& p.y_min@ == ys.0
    &&& p.y_max@ == ys.1
}

/// `p` holds the ranges of the plot of `a·x² + b·x + c`.  `w` ranges over
/// the one real number that is the square root of the discriminant's
/// absolute value.
pub open spec fn bounds_of(p: PlotBounds, a: real, b: real, c: real) -> bool {
    forall|w: real| #[trigger] is_sqrt(w, abs(discriminant_of(a, b, c))) ==> within(p, a, b, c, w)
}

/// `pt` is the `i`-th point of the curve of `a·x² + b·x + c` as the plot
/// samples it: its abscissa lies `i` hundredths of the way from the left end
/// of the horizontal range to the right end.  `w` ranges over the one real
/// number that is the square root of the discriminant's absolute value.
pub open spec fn sample_is(pt: (Surd, Ratio), a: real, b: real, c: real, i: int) -> bool {
    forall|w: real| #[trigger]
        is_sqrt(w, abs(discriminant_of(a, b, c))) ==> pt.0.denotes(sample_of(a, b, c, w, i).0)
            && pt.1@ == sample_of(a, b, c, w, i).1
}

/// A number `v` with `den·v = num + k·w`, the three of `den`, `num` and the
/// square of `w` given in millionths, in the form that a surd holds it in.
proof fn lemma_surd_of_micro(v: real, num: int, k: int, den: int, w: real, delta: int)
    requires
        k >= 0,
        w >= 0real,
        w * w == delta as real / 1_000_000_000_000real,
        micro(den) * v == micro(num) + k as real * w,
    ensures
        is_sqrt(den as real * v - num as real, (k * k * delta) as real),
{
    let dr = den as real;
    let nr = num as real;
    let kr = k as real;
    let s = 1_000_000real * (kr * w);
    assert(dr * v == 1_000_000real * (micro(den) * v)) by (nonlinear_arith)
        requires
            micro(den) == dr / 1_000_000real,
    ;
    assert(dr * v - nr == s);
    assert(kr * w >= 0real) by (nonlinear_arith)
        requires
            kr >= 0real,
            w >= 0real,
    ;
    assert(s * s == (kr * kr) * (1_000_000_000_000real * (w * w))) by (nonlinear_arith)
        requires
            s == 1_000_000real * (kr * w),
    ;
    lemma_cast_mul(k, k);
    lemma_cast_mul(k * k, delta);
}

/// A number `y` with `(m·a)·y = n·D`, where `a` is the leading coefficient
/// and `D` the discriminant, both given in millionths, as a quotient of
/// integers.
proof fn lemma_ratio_of_micro(y: real, m: int, a: int, n: int, delta: int, d: real)
    requires
        a != 0,
        m != 0,
        d == delta as real / 1_000_000_000_000real,
        (m as real * micro(a)) * y == n as real * d,
    ensures
        y == (n * delta) as real / (m * 1_000_000 * a) as real,
{
    let ar = a as real;
    let mr = m as real;
    let nr = n as real;
    let dr = delta as real;
    assert((mr * 1_000_000real * ar) * y == 1_000_000_000_000real * ((mr * (ar / 1_000_000real))
        * y)) by (nonlinear_arith);
    assert(1_000_000_000_000real * (nr * (dr / 1_000_000_000_000real)) == nr * dr)
        by (nonlinear_arith);
    lemma_cast_mul(n, delta);
    lemma_cast_mul(m * 1_000_000, a);
    assert((m * 1_000_000 * a) as real != 0real) by (nonlinear_arith)
        requires
            (m * 1_000_000 * a) as real == (mr * 1_000_000real) * ar,
            ar != 0real,
            mr != 0real,
    ;
    assert((mr * 1_000_000real) * ar == mr * 1_000_000real * ar);
    lemma_quotient_unique((n * delta) as real, (m * 1_000_000 * a) as real, y);
}

/// The number `yv + a·n / 100`, where `yv` is the vertex ordinate and `a` the
/// leading coefficient given in millionths, as a quotient of integers.
proof fn lemma_beside_vertex_y(a: int, b: int, c: int, n: int)
    requires
        a != 0,
    ensures
        vertex_y(micro(a), micro(b), micro(c)) + (micro(a) * n as real) / 100real == (-25 * (b * b
            - 4 * (a * c)) + n * (a * a)) as real / (100_000_000 * a) as real,
{
    let ar = a as real;
    let nr = n as real;
    let av = micro(a);
    let yv = vertex_y(micro(a), micro(b), micro(c));
    let dr = (-(b * b - 4 * (a * c))) as real;
    let den = (100_000_000 * a) as real;
    lemma_vertex_micro(a, b, c);
    lemma_div_cancel(dr, (4_000_000 * a) as real);
    assert(den * (yv + (av * nr) / 100real) == 25real * ((4_000_000real * ar) * yv) + nr * (ar
        * ar)) by (nonlinear_arith)
        requires
            den == 100_000_000real * ar,
            av == ar / 1_000_000real,
    ;
    lemma_cast_mul(a, a);
    lemma_cast_mul(n, a * a);
    lemma_quotient_unique(
        (-25 * (b * b - 4 * (a * c)) + n * (a * a)) as real,
        den,
        yv + (av * nr) / 100real,
    );
}

impl Roots {
    /// What is said in place of marks where the roots are complex.
    pub open spec fn spec_plot_note(&self) -> Option<Seq<char>> {
        match self {
            Roots::TwoComplex { .. } => Some("Note: Complex roots are not displayed on the plot"@),
            _ => None,
        }
    }

    /// What is said in place of marks where the roots are complex; nothing
    /// where they are real.
    pub fn plot_note(&self) -> (note: Option<&'static str>)
        ensures
            match note {
                Some(text) => self.spec_plot_note() == Some(text@),
                None => self.spec_plot_note() is None,
            },
    {
        match self {
            Roots::TwoComplex { .. } => Some("Note: Complex roots are not displayed on the plot"),
            _ => None,
        }
    }
}

impl QuadraticEquation {
    /// The ranges about the vertex, for an equation without a root to show:
    /// the horizontal range is `xv ∓ 5`, the vertical range has the ends
    /// `yv − 5a` and `yv + 30a`.
    fn centered_bounds(&self) -> (p: PlotBounds)
        requires
            self.discriminant_real() < 0real || (self.discriminant_real() == 0real
                && self.spec_b()@ == 0real),
        ensures
            bounds_of(p, self.spec_a()@, self.spec_b()@, self.spec_c()@),
    {
        proof {
            use_type_invariant(self);
        }
        let a: i128 = self.a.micros as i128;
        let b: i128 = self.b.micros as i128;
        let d: i128 = self.scaled_discriminant();
        let ghost av = self.a@;
        let ghost bv = self.b@;
        let ghost cv = self.c@;
        proof {
            assert(0 <= a * a <= MICROS_LIMIT * MICROS_LIMIT) by (nonlinear_arith)
                requires
                    -MICROS_LIMIT <= a <= MICROS_LIMIT,
            ;
        }
        let aa: i128 = a * a;
        let x_min: Surd = Surd { num: -b - 10 * a, radicand: 0, den: 2 * a };
        let x_max: Surd = Surd { num: -b + 10 * a, radicand: 0, den: 2 * a };
        // yv − 5a and yv + 30a, each over a positive denominator.
        let beside: Ratio = if a > 0 {
            Ratio { num: -(25 * d) - 500 * aa, den: 100_000_000 * a }
        } else {
            Ratio { num: 25 * d + 500 * aa, den: -(100_000_000 * a) }
        };
        let beyond: Ratio = if a > 0 {
            Ratio { num: -(25 * d) + 3000 * aa, den: 100_000_000 * a }
        } else {
            Ratio { num: 25 * d - 3000 * aa, den: -(100_000_000 * a) }
        };
        let p: PlotBounds = if a > 0 {
            PlotBounds { x_min, x_max, y_min: beside, y_max: beyond }
        } else {
            PlotBounds { x_min, x_max, y_min: beyond, y_max: beside }
        };
        proof {
            lemma_beside_vertex_y(a as int, b as int, self.c.micros as int, -500);
            lemma_beside_vertex_y(a as int, b as int, self.c.micros as int, 3000);
            lemma_div_neg((-(25 * d) - 500 * aa) as real, (100_000_000 * a) as real);
            lemma_div_neg((-(25 * d) + 3000 * aa) as real, (100_000_000 * a) as real);
            assert((av * (-500) as real) / 100real == -(5real * av) && (av * 3000 as real) / 100real
                == 30real * av) by (nonlinear_arith);
            assert(beside@ == vertex_y(av, bv, cv) - 5real * av);
            assert(beyond@ == vertex_y(av, bv, cv) + 30real * av);
            let xv = vertex_x(av, bv);
            lemma_div_cancel(-bv, 2real * av);
            assert(micro(2 * a) * (xv - 5real) == micro(-b - 10 * a) + 0real * 0real) by (nonlinear_arith)
                requires
                    (2real * av) * xv == -bv,
                    micro(2 * a) == 2real * av,
                    micro(-b - 10 * a) == -bv - 10real * av,
            ;
            assert(micro(2 * a) * (xv + 5real) == micro(-b + 10 * a) + 0real * 0real) by (nonlinear_arith)
                requires
                    (2real * av) * xv == -bv,
                    micro(2 * a) == 2real * av,
                    micro(-b + 10 * a) == -bv + 10real * av,
            ;
            lemma_surd_of_micro(xv - 5real, -b - 10 * a, 0, 2 * a, 0real, 0);
            lemma_surd_of_micro(xv + 5real, -b + 10 * a, 0, 2 * a, 0real, 0);
            assert forall|w: real| #[trigger]
                is_sqrt(w, abs(discriminant_of(av, bv, cv))) implies within(p, av, bv, cv, w) by {
                lemma_centered_ranges(av, bv, cv, w);
            }
        }
        p
    }

    /// The ranges about a double root away from the origin: the horizontal
    /// range is the root alone, the vertical range is zero alone.
    fn double_root_bounds(&self) -> (p: PlotBounds)
        requires
            self.discriminant_real() == 0real,
            self.spec_b()@ != 0real,
        ensures
            bounds_of(p, self.spec_a()@, self.spec_b()@, self.spec_c()@),
    {
        proof {
            use_type_invariant(self);
        }
        let a: i128 = self.a.micros as i128;
        let b: i128 = self.b.micros as i128;
        let ghost av = self.a@;
        let ghost bv = self.b@;
        let ghost cv = self.c@;
        let x: Surd = Surd { num: -b, radicand: 0, den: 2 * a };
        let y: Ratio = Ratio { num: 0, den: 1 };
        let p: PlotBounds = PlotBounds { x_min: x, x_max: x, y_min: y, y_max: y };
        proof {
            let xv = vertex_x(av, bv);
            lemma_div_cancel(-bv, 2real * av);
            assert(micro(2 * a) * xv == micro(-b) + 0real * 0real);
            lemma_surd_of_micro(xv, -b, 0, 2 * a, 0real, 0);
            lemma_quotient_unique(y.num as real, y.den as real, 0real);
            assert forall|w: real| #[trigger]
                is_sqrt(w, abs(discriminant_of(av, bv, cv))) implies within(p, av, bv, cv, w) by {
                lemma_double_root_ranges(av, bv, cv, w);
            }
        }
        p
    }

    /// The ranges about two real roots: the horizontal range has the ends
    /// `(−5b ∓ 7√D) / (10a)`, the vertical range the ends `−174·D / (500a)`
    /// and `169·D / (500a)`.
    fn span_bounds(&self) -> (p: PlotBounds)
        requires
            self.discriminant_real() > 0real,
        ensures
            bounds_of(p, self.spec_a()@, self.spec_b()@, self.spec_c()@),
    {
        proof {
            use_type_invariant(self);
        }
        let a: i128 = self.a.micros as i128;
        let b: i128 = self.b.micros as i128;
        let d: i128 = self.scaled_discriminant();
        let ghost av = self.a@;
        let ghost bv = self.b@;
        let ghost cv = self.c@;
        let ghost dv = self.discriminant_real();
        let radicand: u128 = (49 * d) as u128;
        // (−5b − 7√D) / (10a) and (−5b + 7√D) / (10a).
        let minus: Surd = Surd { num: 5 * b, radicand, den: -(10 * a) };
        let plus: Surd = Surd { num: -(5 * b), radicand, den: 10 * a };
        // −174·D / (500a) and 169·D / (500a), each over a positive denominator.
        let beside: Ratio = if a > 0 {
            Ratio { num: -(174 * d), den: 500_000_000 * a }
        } else {
            Ratio { num: 174 * d, den: -(500_000_000 * a) }
        };
        let beyond: Ratio = if a > 0 {
            Ratio { num: 169 * d, den: 500_000_000 * a }
        } else {
            Ratio { num: -(169 * d), den: -(500_000_000 * a) }
        };
        let p: PlotBounds = if a > 0 {
            PlotBounds { x_min: minus, x_max: plus, y_min: beside, y_max: beyond }
        } else {
            PlotBounds { x_min: plus, x_max: minus, y_min: beyond, y_max: beside }
        };
        proof {
            lemma_div_neg((-(174 * d)) as real, (500_000_000 * a) as real);
            lemma_div_neg((169 * d) as real, (500_000_000 * a) as real);
            assert forall|w: real| #[trigger] is_sqrt(w, abs(dv)) implies within(
                p,
                av,
                bv,
                cv,
                w,
            ) by {
                let xs = x_range_of(av, bv, cv, w);
                let ys = y_range_of(av, bv, cv, w);
                lemma_span_ranges(av, bv, cv, w);
                let at_minus = if a > 0 {
                    xs.0
                } else {
                    xs.1
                };
                let at_plus = if a > 0 {
                    xs.1
                } else {
                    xs.0
                };
                assert(micro(-(10 * a)) * at_minus == micro(5 * b) + 7 as real * w) by (nonlinear_arith)
                    requires
                        (10real * av) * at_minus == -5real * bv - 7real * w,
                        micro(-(10 * a)) == -(10real * av),
                        micro(5 * b) == 5real * bv,
                ;
                assert(micro(10 * a) * at_plus == micro(-(5 * b)) + 7 as real * w) by (nonlinear_arith)
                    requires
                        (10real * av) * at_plus == -5real * bv + 7real * w,
                        micro(10 * a) == 10real * av,
                        micro(-(5 * b)) == -(5real * bv),
                ;
                lemma_surd_of_micro(at_minus, 5 * b, 7, -(10 * a), w, d as int);
                lemma_surd_of_micro(at_plus, -(5 * b), 7, 10 * a, w, d as int);
                let at_beside = if a > 0 {
                    ys.0
                } else {
                    ys.1
                };
                let at_beyond = if a > 0 {
                    ys.1
                } else {
                    ys.0
                };
                lemma_ratio_of_micro(at_beside, 500, a as int, -174, d as int, dv);
                lemma_ratio_of_micro(at_beyond, 500, a as int, 169, d as int, dv);
            }
        }
        p
    }

    /// A sample of a plot about the vertex: with `k = 50 − i` it lies at
    /// `xv − k / 10`, where the curve is at `yv + a·k² / 100`.
    fn centered_sample(&self, i: u32) -> (pt: (Surd, Ratio))
        requires
            i <= SAMPLE_STEPS,
            self.discriminant_real() < 0real || (self.discriminant_real() == 0real
                && self.spec_b()@ == 0real),
        ensures
            sample_is(pt, self.spec_a()@, self.spec_b()@, self.spec_c()@, i as int),
    {
        proof {
            use_type_invariant(self);
        }
        let a: i128 = self.a.micros as i128;
        let b: i128 = self.b.micros as i128;
        let d: i128 = self.scaled_discriminant();
        let k: i128 = 50 - i as i128;
        let ghost av = self.a@;
        let ghost bv = self.b@;
        let ghost cv = self.c@;
        proof {
            assert(0 <= a * a <= MICROS_LIMIT * MICROS_LIMIT) by (nonlinear_arith)
                requires
                    -MICROS_LIMIT <= a <= MICROS_LIMIT,
            ;
            assert(0 <= k * k <= 2500) by (nonlinear_arith)
                requires
                    -50 <= k <= 50,
            ;
            assert(-50 * MICROS_LIMIT <= a * k <= 50 * MICROS_LIMIT) by (nonlinear_arith)
                requires
                    -MICROS_LIMIT <= a <= MICROS_LIMIT,
                    -50 <= k <= 50,
            ;
            assert(0 <= (k * k) * (a * a) <= 2500 * (MICROS_LIMIT * MICROS_LIMIT))
                by (nonlinear_arith)
                requires
                    0 <= a * a <= MICROS_LIMIT * MICROS_LIMIT,
                    0 <= k * k <= 2500,
            ;
        }
        let kk: i128 = k * k;
        let rise: i128 = kk * (a * a);
        let x: Surd = Surd { num: -(5 * b) - a * k, radicand: 0, den: 10 * a };
        let y: Ratio = if a > 0 {
            Ratio { num: -(25 * d) + rise, den: 100_000_000 * a }
        } else {
            Ratio { num: 25 * d - rise, den: -(100_000_000 * a) }
        };
        proof {
            lemma_beside_vertex_y(a as int, b as int, self.c.micros as int, kk as int);
            lemma_div_neg((-(25 * d) + rise) as real, (100_000_000 * a) as real);
            lemma_cast_mul(k as int, k as int);
            lemma_cast_mul(a as int, k as int);
            let kr = k as real;
            assert((av * (kk as real)) / 100real == (av * (kr * kr)) / 100real);
            assert forall|w: real| #[trigger]
                is_sqrt(w, abs(discriminant_of(av, bv, cv))) implies x.denotes(
                sample_of(av, bv, cv, w, i as int).0,
            ) && y@ == sample_of(av, bv, cv, w, i as int).1 by {
                let pt = sample_of(av, bv, cv, w, i as int);
                lemma_centered_sample(av, bv, cv, w, i as int);
                assert(micro(10 * a) * pt.0 == micro(-(5 * b) - a * k) + 0real * 0real)
                    by (nonlinear_arith)
                    requires
                        (10real * av) * pt.0 == -5real * bv - av * kr,
                        micro(10 * a) == 10real * av,
                        micro(-(5 * b) - a * k) == (-5real * (b as real) - (a as real) * kr)
                            / 1_000_000real,
                        av == a as real / 1_000_000real,
                        bv == b as real / 1_000_000real,
                ;
                lemma_surd_of_micro(pt.0, -(5 * b) - a * k, 0, 10 * a, 0real, 0);
            }
        }
        (x, y)
    }

    /// A sample of a plot about two real roots: with `m` seven times `i − 50`
    /// where `a` is positive, seven times `50 − i` where it is negative, it
    /// lies at `(−250b + m·√D) / (500a)`, where the curve is at
    /// `(m² − 62500)·D / (250000a)`.
    fn span_sample(&self, i: u32) -> (pt: (Surd, Ratio))
        requires
            i <= SAMPLE_STEPS,
            self.discriminant_real() > 0real,
        ensures
            sample_is(pt, self.spec_a()@, self.spec_b()@, self.spec_c()@, i as int),
    {
        proof {
            use_type_invariant(self);
        }
        let a: i128 = self.a.micros as i128;
        let b: i128 = self.b.micros as i128;
        let d: i128 = self.scaled_discriminant();
        let m: i128 = if a > 0 {
            7 * (i as i128 - 50)
        } else {
            7 * (50 - i as i128)
        };
        let size: i128 = if m >= 0 {
            m
        } else {
            -m
        };
        let ghost av = self.a@;
        let ghost bv = self.b@;
        let ghost cv = self.c@;
        let ghost dv = self.discriminant_real();
        proof {
            assert(0 <= size * size <= 122500 && size * size == m * m) by (nonlinear_arith)
                requires
                    0 <= size <= 350,
                    size == m || size == -m,
            ;
            assert(0 <= (size * size) * d <= 122500 * (5 * (MICROS_LIMIT * MICROS_LIMIT)))
                by (nonlinear_arith)
                requires
                    0 <= size * size <= 122500,
                    0 <= d <= 5 * (MICROS_LIMIT * MICROS_LIMIT),
            ;
            assert(-62500 * (5 * (MICROS_LIMIT * MICROS_LIMIT)) <= (size * size - 62500) * d
                <= 62500 * (5 * (MICROS_LIMIT * MICROS_LIMIT))) by (nonlinear_arith)
                requires
                    -62500 <= size * size - 62500 <= 62500,
                    0 <= d <= 5 * (MICROS_LIMIT * MICROS_LIMIT),
            ;
        }
        let square: i128 = size * size;
        let radicand: u128 = (square * d) as u128;
        let x: Surd = if m >= 0 {
            Surd { num: -(250 * b), radicand, den: 500 * a }
        } else {
            Surd { num: 250 * b, radicand, den: -(500 * a) }
        };
        let rise: i128 = (square - 62500) * d;
        let y: Ratio = if a > 0 {
            Ratio { num: rise, den: 250_000_000_000 * a }
        } else {
            Ratio { num: -rise, den: -(250_000_000_000 * a) }
        };
        proof {
            lemma_div_neg(rise as real, (250_000_000_000 * a) as real);
            lemma_cast_mul(m as int, m as int);
            assert forall|w: real| #[trigger] is_sqrt(w, abs(dv)) implies x.denotes(
                sample_of(av, bv, cv, w, i as int).0,
            ) && y@ == sample_of(av, bv, cv, w, i as int).1 by {
                let pt = sample_of(av, bv, cv, w, i as int);
                lemma_span_sample(av, bv, cv, w, i as int);
                let mr = m as real;
                if m >= 0 {
                    assert(micro(500 * a) * pt.0 == micro(-(250 * b)) + size as real * w)
                        by (nonlinear_arith)
                        requires
                            (500real * av) * pt.0 == -250real * bv + mr * w,
                            micro(500 * a) == 500real * av,
                            micro(-(250 * b)) == -(250real * bv),
                            size as real == mr,
                    ;
                    lemma_surd_of_micro(pt.0, -(250 * b), size as int, 500 * a, w, d as int);
                } else {
                    assert(micro(-(500 * a)) * pt.0 == micro(250 * b) + size as real * w)
                        by (nonlinear_arith)
                        requires
                            (500real * av) * pt.0 == -250real * bv + mr * w,
                            micro(-(500 * a)) == -(500real * av),
                            micro(250 * b) == 250real * bv,
                            size as real == -mr,
                    ;
                    lemma_surd_of_micro(pt.0, 250 * b, size as int, -(500 * a), w, d as int);
                }
                lemma_ratio_of_micro(pt.1, 250000, a as int, square - 62500, d as int, dv);
            }
        }
        (x, y)
    }

    /// A sample of a plot about a double root away from the origin: the
    /// root itself, where the curve is at zero.
    fn double_root_sample(&self, i: u32) -> (pt: (Surd, Ratio))
        requires
            self.discriminant_real() == 0real,
            self.spec_b()@ != 0real,
        ensures
            sample_is(pt, self.spec_a()@, self.spec_b()@, self.spec_c()@, i as int),
    {
        proof {
            use_type_invariant(self);
        }
        let a: i128 = self.a.micros as i128;
        let b: i128 = self.b.micros as i128;
        let ghost av = self.a@;
        let ghost bv = self.b@;
        let ghost cv = self.c@;
        let x: Surd = Surd { num: -b, radicand: 0, den: 2 * a };
        let y: Ratio = Ratio { num: 0, den: 1 };
        proof {
            let xv = vertex_x(av, bv);
            lemma_div_cancel(-bv, 2real * av);
            assert(micro(2 * a) * xv == micro(-b) + 0real * 0real);
            lemma_surd_of_micro(xv, -b, 0, 2 * a, 0real, 0);
            lemma_quotient_unique(y.num as real, y.den as real, 0real);
            assert forall|w: real| #[trigger]
                is_sqrt(w, abs(discriminant_of(av, bv, cv))) implies x.denotes(
                sample_of(av, bv, cv, w, i as int).0,
            ) && y@ == sample_of(av, bv, cv, w, i as int).1 by {
                lemma_double_root_sample(av, bv, cv, w, i as int);
            }
        }
        (x, y)
    }

    /// The `i`-th point of the curve as the plot samples it: its abscissa
    /// lies `i` hundredths of the way from the left end of the horizontal
    /// range to the right end.
    pub fn sample_point(&self, i: u32) -> (pt: (Surd, Ratio))
        requires
            i <= SAMPLE_STEPS,
        ensures
            sample_is(pt, self.spec_a()@, self.spec_b()@, self.spec_c()@, i as int),
    {
        let d: i128 = self.scaled_discriminant();
        if d < 0 || (d == 0 && self.b.micros == 0) {
            self.centered_sample(i)
        } else if d == 0 {
            self.double_root_sample(i)
        } else {
            self.span_sample(i)
        }
    }

    /// The points of the curve as the plot samples it, from the left end of
    /// the horizontal range to the right end: one more than there are steps.
    pub fn sample_points(&self) -> (points: Vec<(Surd, Ratio)>)
        ensures
            points@.len() == SAMPLE_STEPS + 1,
            forall|i: int|
                0 <= i <= SAMPLE_STEPS ==> sample_is(
                    #[trigger] points@[i],
                    self.spec_a()@,
                    self.spec_b()@,
                    self.spec_c()@,
                    i,
                ),
    {
        let mut points: Vec<(Surd, Ratio)> = Vec::new();
        let mut i: u32 = 0;
        while i <= SAMPLE_STEPS
            invariant
                i <= SAMPLE_STEPS + 1,
                points@.len() == i,
                forall|j: int|
                    0 <= j < i ==> sample_is(
                        #[trigger] points@[j],
                        self.spec_a()@,
                        self.spec_b()@,
                        self.spec_c()@,
                        j,
                    ),
            decreases SAMPLE_STEPS + 1 - i,
        {
            let pt: (Surd, Ratio) = self.sample_point(i);
            points.push(pt);
            i += 1;
        }
        points
    }

    /// The ranges of the plot: ten wide about the vertex where the roots are
    /// complex or a double root sits at the origin; else spanning the roots
    /// and the vertex, widened by a fifth of the span on each side.
    pub fn plot_bounds(&self) -> (p: PlotBounds)
        ensures
            bounds_of(p, self.spec_a()@, self.spec_b()@, self.spec_c()@),
    {
        let d: i128 = self.scaled_discriminant();
        if d < 0 || (d == 0 && self.b.micros == 0) {
            self.centered_bounds()
        } else if d == 0 {
            self.double_root_bounds()
        } else {
            self.span_bounds()
        }
    }

    /// The abscissas at which the plot marks a root, in the order of the
    /// roots.  `w` ranges over the one real number that is the square root of
    /// the discriminant's absolute value.
    pub fn root_markers(&self) -> (marks: Vec<Surd>)
        ensures
            forall|w: real| #[trigger]
                is_sqrt(w, abs(self.discriminant_real())) ==> marks_denote(
                    marks@,
                    marked_roots_of(self.spec_a()@, self.spec_b()@, self.spec_c()@, w),
                ),
    {
        proof {
            use_type_invariant(self);
        }
        let ghost av = self.a@;
        let ghost bv = self.b@;
        let ghost cv = self.c@;
        let ghost dv = self.discriminant_real();
        let mut marks: Vec<Surd> = Vec::new();
        let roots: Roots = self.calculate_roots();
        match roots {
            Roots::TwoReal { x1, x2 } => {
                let zero1: bool = x1.is_zero();
                let zero2: bool = x2.is_zero();
                if !zero1 {
                    marks.push(x1);
                }
                if !zero2 {
                    marks.push(x2);
                }
                proof {
                    assert forall|w: real| #[trigger] is_sqrt(w, abs(dv)) implies marks_denote(
                        marks@,
                        marked_roots_of(av, bv, cv, w),
                    ) by {
                        assert(is_sqrt(w, discriminant_of(av, bv, cv)));
                        lemma_real_roots_distinct(av, bv, cv, w);
                        let r1 = root_plus(av, bv, w);
                        let r2 = root_minus(av, bv, w);
                        assert(x1.denotes(r1));
                        assert(x2.denotes(r2));
                        let values = marked_roots_of(av, bv, cv, w);
                        if !zero1 && !zero2 {
                            assert(values =~= seq![r1, r2]);
                        } else if !zero1 {
                            assert(values =~= seq![r1]);
                        } else if !zero2 {
                            assert(values =~= seq![r2]);
                        } else {
                            assert(values =~= Seq::<real>::empty());
                        }
                    }
                }
            },
            Roots::OneReal { x } => {
                let zero: bool = x.is_zero();
                if !zero {
                    marks.push(Surd::from_ratio(&x));
                }
                proof {
                    assert forall|w: real| #[trigger] is_sqrt(w, abs(dv)) implies marks_denote(
                        marks@,
                        marked_roots_of(av, bv, cv, w),
                    ) by {
                        let xv = vertex_x(av, bv);
                        let values = marked_roots_of(av, bv, cv, w);
                        if !zero {
                            assert(values =~= seq![xv]);
                        } else {
                            assert(values =~= Seq::<real>::empty());
                        }
                    }
                }
            },
            Roots::TwoComplex { .. } => {
                proof {
                    assert forall|w: real| #[trigger] is_sqrt(w, abs(dv)) implies marks_denote(
                        marks@,
                        marked_roots_of(av, bv, cv, w),
                    ) by {
                        assert(marked_roots_of(av, bv, cv, w) =~= Seq::<real>::empty());
                    }
                }
            },
        }
        marks
    }
}

} // verus!
