//! The quadratic equation `a·x² + b·x + c = 0` and its solution.

use vstd::prelude::*;
use vstd::string::StringExecFns;
use crate::algebra::{
    discriminant_of,
    imaginary_part,
    is_sqrt,
    lemma_div_cancel,
    lemma_quotient_unique,
    lemma_vertex_y_closed_form,
    root_minus,
    root_plus,
    round2,
    vertex_x,
    vertex_y,
};
use crate::error::QuadraticError;
use crate::number::{Decimal, Hundredths, Ratio, MICROS_LIMIT};
use crate::reals::{lemma_cast_mul, lemma_div_neg};
use crate::surd::Surd;

verus! {

/// A quadratic equation: three coefficients, the first of them not zero.
#[derive(Clone, Copy, Debug)]
pub struct QuadraticEquation {
    pub(crate) a: Decimal,
    pub(crate) b: Decimal,
    pub(crate) c: Decimal,
}

/// The roots of a quadratic equation.
#[derive(Clone, Copy, Debug)]
pub enum Roots {
    /// Two distinct real roots, `(−b + √D) / (2a)` and `(−b − √D) / (2a)`.
    TwoReal { x1: Surd, x2: Surd },
    /// One repeated real root, `−b / (2a)`.
    OneReal { x: Ratio },
    /// The conjugate pair `re ± imag·i`, with `re = −b / (2a)` and
    /// `imag = √|D| / (2a)`.
    TwoComplex { re: Ratio, imag: Surd },
}

/// `x` millionths, as a real number.
pub open spec fn micro(x: int) -> real {
    x as real / 1_000_000real
}

/// `r` holds the roots of `a·x² + b·x + c = 0`: the case that the sign of the
/// discriminant `D` selects, with the values that the formulas give.  `w`
/// ranges over the one real number that is the square root of `|D|`.
pub open spec fn roots_of(r: Roots, a: real, b: real, c: real) -> bool {
    let d = discriminant_of(a, b, c);
    match r {
        Roots::TwoReal { x1, x2 } => {
            &&& d > 0real
            &&& forall|w: real| #[trigger]
                is_sqrt(w, d) ==> x1.denotes(root_plus(a, b, w)) && x2.denotes(
                    root_minus(a, b, w),
                )
        },
        Roots::OneReal { x } => {
            &&& d == 0real
            &&& x@ == vertex_x(a, b)
        },
        Roots::TwoComplex { re, imag } => {
            &&& d < 0real
            &&& re@ == vertex_x(a, b)
            &&& forall|w: real| #[trigger]
                is_sqrt(w, -d) ==> imag.denotes(imaginary_part(a, w))
        },
    }
}

/// Roots come in exactly one of three cases, and the sign of the discriminant
/// alone says in which: two real roots where it is positive, one where it is
/// zero, a complex pair where it is negative.
pub proof fn lemma_case_by_sign(r: Roots, a: real, b: real, c: real)
    requires
        roots_of(r, a, b, c),
    ensures
        r is TwoReal <==> discriminant_of(a, b, c) > 0real,
        r is OneReal <==> discriminant_of(a, b, c) == 0real,
        r is TwoComplex <==> discriminant_of(a, b, c) < 0real,
{
}

/// The product of two integers of magnitude at most `l` has magnitude at most `l²`.
proof fn lemma_product_bound(x: int, y: int, l: int)
    requires
        -l <= x <= l,
        -l <= y <= l,
    ensures
        -(l * l) <= x * y <= l * l,
{
    assert(-(l * l) <= x * y <= l * l) by (nonlinear_arith)
        requires
            -l <= x <= l,
            -l <= y <= l,
    ;
}

/// The discriminant of coefficients given in millionths.
proof fn lemma_discriminant_micro(a: int, b: int, c: int)
    ensures
        discriminant_of(micro(a), micro(b), micro(c)) == (b * b - 4 * (a * c)) as real
            / 1_000_000_000_000real,
{
    let ar = a as real;
    let br = b as real;
    let cr = c as real;
    let av = micro(a);
    let bv = micro(b);
    let cv = micro(c);
    assert(bv * bv - 4real * av * cv == (br * br - 4real * (ar * cr)) / 1_000_000_000_000real)
        by (nonlinear_arith)
        requires
            av == ar / 1_000_000real,
            bv == br / 1_000_000real,
            cv == cr / 1_000_000real,
    ;
    lemma_cast_mul(b, b);
    lemma_cast_mul(a, c);
}

/// The vertex of coefficients given in millionths.
pub(crate) proof fn lemma_vertex_micro(a: int, b: int, c: int)
    requires
        a != 0,
    ensures
        vertex_x(micro(a), micro(b)) == (-b) as real / (2 * a) as real,
        vertex_y(micro(a), micro(b), micro(c)) == (-(b * b - 4 * (a * c))) as real / (4_000_000
            * a) as real,
{
    let ar = a as real;
    let br = b as real;
    let av = micro(a);
    let bv = micro(b);
    let cv = micro(c);
    let xv = vertex_x(av, bv);
    let yv = vertex_y(av, bv, cv);
    let d = discriminant_of(av, bv, cv);
    let dr = (b * b - 4 * (a * c)) as real;
    lemma_div_cancel(-bv, 2real * av);
    assert((2real * ar) * xv == -br) by (nonlinear_arith)
        requires
            (2real * av) * xv == -bv,
            av == ar / 1_000_000real,
            bv == br / 1_000_000real,
    ;
    lemma_quotient_unique(-br, 2real * ar, xv);
    lemma_vertex_y_closed_form(av, bv, cv);
    lemma_discriminant_micro(a, b, c);
    lemma_div_cancel(-d, 4real * av);
    assert((4_000_000real * ar) * yv == -dr) by (nonlinear_arith)
        requires
            (4real * av) * yv == -d,
            av == ar / 1_000_000real,
            d == dr / 1_000_000_000_000real,
    ;
    lemma_quotient_unique(-dr, 4_000_000real * ar, yv);
}

/// The real roots of coefficients given in millionths, in the form that a
/// surd holds them in.
proof fn lemma_real_roots_micro(a: int, b: int, c: int, w: real)
    requires
        a != 0,
        is_sqrt(w, discriminant_of(micro(a), micro(b), micro(c))),
    ensures
        is_sqrt(
            (2 * a) as real * root_plus(micro(a), micro(b), w) - (-b) as real,
            (b * b - 4 * (a * c)) as real,
        ),
        is_sqrt(
            (-(2 * a)) as real * root_minus(micro(a), micro(b), w) - b as real,
            (b * b - 4 * (a * c)) as real,
        ),
{
    let ar = a as real;
    let br = b as real;
    let av = micro(a);
    let bv = micro(b);
    let x1 = root_plus(av, bv, w);
    let x2 = root_minus(av, bv, w);
    let s = 1_000_000real * w;
    lemma_discriminant_micro(a, b, c);
    lemma_div_cancel(-bv + w, 2real * av);
    lemma_div_cancel(-bv - w, 2real * av);
    assert((2real * ar) * x1 == -br + s) by (nonlinear_arith)
        requires
            (2real * av) * x1 == -bv + w,
            av == ar / 1_000_000real,
            bv == br / 1_000_000real,
            s == 1_000_000real * w,
    ;
    assert((-2real * ar) * x2 == br + s) by (nonlinear_arith)
        requires
            (2real * av) * x2 == -bv - w,
            av == ar / 1_000_000real,
            bv == br / 1_000_000real,
            s == 1_000_000real * w,
    ;
    assert(s * s == 1_000_000_000_000real * (w * w)) by (nonlinear_arith)
        requires
            s == 1_000_000real * w,
    ;
}

/// The imaginary part for coefficients given in millionths, in the form that
/// a surd holds it in.
proof fn lemma_imaginary_micro(a: int, b: int, c: int, w: real)
    requires
        a != 0,
        is_sqrt(w, -discriminant_of(micro(a), micro(b), micro(c))),
    ensures
        is_sqrt(
            (2 * a) as real * imaginary_part(micro(a), w) - 0real,
            (-(b * b - 4 * (a * c))) as real,
        ),
{
    let ar = a as real;
    let av = micro(a);
    let im = imaginary_part(av, w);
    let s = 1_000_000real * w;
    lemma_discriminant_micro(a, b, c);
    lemma_div_cancel(w, 2real * av);
    assert((2real * ar) * im == s) by (nonlinear_arith)
        requires
            (2real * av) * im == w,
            av == ar / 1_000_000real,
            s == 1_000_000real * w,
    ;
    assert(s * s == 1_000_000_000_000real * (w * w)) by (nonlinear_arith)
        requires
            s == 1_000_000real * w,
    ;
}

impl Roots {
    /// The first real root: `x1` of two real roots, the root itself where it
    /// is repeated.  A complex pair has none.
    pub fn x1(&self) -> (r: Option<Surd>)
        ensures
            match *self {
                Roots::TwoReal { x1, x2 } => r == Some(x1),
                Roots::OneReal { x } => r matches Some(s) && s.denotes(x@) && s.spec_num()
                    == x.spec_num() && s.spec_radicand() == 0 && s.spec_den() == x.spec_den(),
                Roots::TwoComplex { .. } => r is None,
            },
    {
        match self {
            Roots::TwoReal { x1, .. } => Some(*x1),
            Roots::OneReal { x } => Some(Surd::from_ratio(x)),
            Roots::TwoComplex { .. } => None,
        }
    }

    /// The second real root: `x2` of two real roots, the root itself where
    /// it is repeated, in which case it is the first root once more.  A
    /// complex pair has none.
    pub fn x2(&self) -> (r: Option<Surd>)
        ensures
            match *self {
                Roots::TwoReal { x1, x2 } => r == Some(x2),
                Roots::OneReal { x } => r matches Some(s) && s.denotes(x@) && s.spec_num()
                    == x.spec_num() && s.spec_radicand() == 0 && s.spec_den() == x.spec_den(),
                Roots::TwoComplex { .. } => r is None,
            },
    {
        match self {
            Roots::TwoReal { x2, .. } => Some(*x2),
            Roots::OneReal { x } => Some(Surd::from_ratio(x)),
            Roots::TwoComplex { .. } => None,
        }
    }

    /// The name of the case: how many roots there are, and of what kind.
    pub open spec fn spec_classification(&self) -> Seq<char> {
        match self {
            Roots::TwoReal { .. } => "two real roots"@,
            Roots::OneReal { .. } => "one real root"@,
            Roots::TwoComplex { .. } => "two complex roots"@,
        }
    }

    /// The name of the case: how many roots there are, and of what kind.
    pub fn classification(&self) -> (name: &'static str)
        ensures
            name@ == self.spec_classification(),
    {
        match self {
            Roots::TwoReal { .. } => "two real roots",
            Roots::OneReal { .. } => "one real root",
            Roots::TwoComplex { .. } => "two complex roots",
        }
    }
}

impl QuadraticEquation {
    /// The leading coefficient is not zero.
    #[verifier::type_invariant]
    pub open(crate) spec fn wf(self) -> bool {
        &&& self.a.micros != 0
        &&& self.a.wf()
        &&& self.b.wf()
        &&& self.c.wf()
    }

    /// The coefficient of `x²`.
    pub open(crate) spec fn spec_a(&self) -> Decimal {
        self.a
    }

    /// The coefficient of `x`.
    pub open(crate) spec fn spec_b(&self) -> Decimal {
        self.b
    }

    /// The constant term.
    pub open(crate) spec fn spec_c(&self) -> Decimal {
        self.c
    }

    /// The discriminant `b² − 4ac` of the equation, as a real number.
    pub open spec fn discriminant_real(&self) -> real {
        discriminant_of(self.spec_a()@, self.spec_b()@, self.spec_c()@)
    }

    /// The message of the error that a zero leading coefficient is refused with.
    pub open spec fn zero_a_message() -> Seq<char> {
        "Coefficient 'a' cannot be zero (would make this a linear equation)"@
    }

    /// The equation with the coefficients `a`, `b` and `c`.  A leading
    /// coefficient of zero is refused: the equation would be linear.
    pub fn new(a: Decimal, b: Decimal, c: Decimal) -> (r: Result<QuadraticEquation, QuadraticError>)
        ensures
            r is Err <==> a@ == 0real,
            r matches Ok(eq) ==> eq.spec_a() == a && eq.spec_b() == b && eq.spec_c() == c,
            r matches Err(e) ==> e matches QuadraticError::InvalidArguments(msg) && msg@
                == Self::zero_a_message(),
    {
        proof {
            use_type_invariant(a);
            use_type_invariant(b);
            use_type_invariant(c);
        }
        if a.is_zero() {
            Err(
                QuadraticError::InvalidArguments(
                    String::from_str(
                        "Coefficient 'a' cannot be zero (would make this a linear equation)",
                    ),
                ),
            )
        } else {
            Ok(QuadraticEquation { a, b, c })
        }
    }

    /// The coefficient of `x²`, which is not zero.
    #[verifier::when_used_as_spec(spec_a)]
    pub fn a(&self) -> (a: Decimal)
        ensures
            a == self.spec_a(),
            a@ != 0real,
    {
        proof {
            use_type_invariant(self);
        }
        self.a
    }

    /// The coefficient of `x`.
    #[verifier::when_used_as_spec(spec_b)]
    pub fn b(&self) -> (b: Decimal)
        ensures
            b == self.spec_b(),
    {
        self.b
    }

    /// The constant term.
    #[verifier::when_used_as_spec(spec_c)]
    pub fn c(&self) -> (c: Decimal)
        ensures
            c == self.spec_c(),
    {
        self.c
    }

    /// `b² − 4ac` computed on the counts of millionths: the discriminant
    /// times a million million.
    pub(crate) fn scaled_discriminant(&self) -> (d: i128)
        ensures
            d == self.b.micros * self.b.micros - 4 * (self.a.micros * self.c.micros),
            -5 * (MICROS_LIMIT * MICROS_LIMIT) <= d <= 5 * (MICROS_LIMIT * MICROS_LIMIT),
            d as real / 1_000_000_000_000real == self.discriminant_real(),
    {
        proof {
            use_type_invariant(self);
            lemma_product_bound(self.b.micros as int, self.b.micros as int, MICROS_LIMIT as int);
            lemma_product_bound(self.a.micros as int, self.c.micros as int, MICROS_LIMIT as int);
            lemma_discriminant_micro(
                self.a.micros as int,
                self.b.micros as int,
                self.c.micros as int,
            );
        }
        let a: i128 = self.a.micros as i128;
        let b: i128 = self.b.micros as i128;
        let c: i128 = self.c.micros as i128;
        let bb: i128 = b * b;
        let ac: i128 = a * c;
        bb - 4 * ac
    }

    /// The discriminant `b² − 4ac`, exactly.
    pub fn raw_discriminant(&self) -> (d: Ratio)
        ensures
            d@ == self.discriminant_real(),
    {
        let num: i128 = self.scaled_discriminant();
        Ratio { num, den: 1_000_000_000_000 }
    }

    /// The discriminant `b² − 4ac`, rounded to two decimal places.
    pub fn discriminant(&self) -> (d: Hundredths)
        ensures
            d@ == round2(self.discriminant_real()),
    {
        self.raw_discriminant().round2()
    }

    /// The vertex `(xv, yv)` of the parabola, exactly: `xv = −b / (2a)` and
    /// `yv = a·xv² + b·xv + c`.
    pub fn raw_vertex(&self) -> (v: (Ratio, Ratio))
        ensures
            v.0@ == vertex_x(self.spec_a()@, self.spec_b()@),
            v.1@ == vertex_y(self.spec_a()@, self.spec_b()@, self.spec_c()@),
    {
        proof {
            use_type_invariant(self);
            lemma_vertex_micro(
                self.a.micros as int,
                self.b.micros as int,
                self.c.micros as int,
            );
        }
        let a: i128 = self.a.micros as i128;
        let b: i128 = self.b.micros as i128;
        let d: i128 = self.scaled_discriminant();
        if a > 0 {
            (Ratio { num: -b, den: 2 * a }, Ratio { num: -d, den: 4_000_000 * a })
        } else {
            proof {
                lemma_div_neg((-b) as real, (2 * a) as real);
                lemma_div_neg((-d) as real, (4_000_000 * a) as real);
            }
            (Ratio { num: b, den: -(2 * a) }, Ratio { num: d, den: -(4_000_000 * a) })
        }
    }

    /// The vertex of the parabola, each coordinate rounded to two decimal places.
    pub fn vertex(&self) -> (v: (Hundredths, Hundredths))
        ensures
            v.0@ == round2(vertex_x(self.spec_a()@, self.spec_b()@)),
            v.1@ == round2(vertex_y(self.spec_a()@, self.spec_b()@, self.spec_c()@)),
    {
        let raw: (Ratio, Ratio) = self.raw_vertex();
        (raw.0.round2(), raw.1.round2())
    }

    /// The two real roots of an equation whose discriminant is positive.
    pub fn two_real_roots(&self) -> (r: Roots)
        requires
            self.discriminant_real() > 0real,
        ensures
            r is TwoReal,
            roots_of(r, self.spec_a()@, self.spec_b()@, self.spec_c()@),
    {
        proof {
            use_type_invariant(self);
        }
        let a: i128 = self.a.micros as i128;
        let b: i128 = self.b.micros as i128;
        let d: i128 = self.scaled_discriminant();
        let x1: Surd = Surd { num: -b, radicand: d as u128, den: 2 * a };
        let x2: Surd = Surd { num: b, radicand: d as u128, den: -(2 * a) };
        proof {
            assert forall|w: real| #[trigger]
                is_sqrt(w, self.discriminant_real()) implies x1.denotes(
                root_plus(self.a@, self.b@, w),
            ) && x2.denotes(root_minus(self.a@, self.b@, w)) by {
                lemma_real_roots_micro(
                    self.a.micros as int,
                    self.b.micros as int,
                    self.c.micros as int,
                    w,
                );
            }
        }
        Roots::TwoReal { x1, x2 }
    }

    /// The repeated real root of an equation whose discriminant is zero.
    pub fn one_real_root(&self) -> (r: Roots)
        requires
            self.discriminant_real() == 0real,
        ensures
            r is OneReal,
            roots_of(r, self.spec_a()@, self.spec_b()@, self.spec_c()@),
    {
        let vertex: (Ratio, Ratio) = self.raw_vertex();
        Roots::OneReal { x: vertex.0 }
    }

    /// The two complex roots of an equation whose discriminant is negative.
    pub fn two_complex_roots(&self) -> (r: Roots)
        requires
            self.discriminant_real() < 0real,
        ensures
            r is TwoComplex,
            roots_of(r, self.spec_a()@, self.spec_b()@, self.spec_c()@),
    {
        proof {
            use_type_invariant(self);
        }
        let a: i128 = self.a.micros as i128;
        let d: i128 = self.scaled_discriminant();
        let vertex: (Ratio, Ratio) = self.raw_vertex();
        let imag: Surd = Surd { num: 0, radicand: (-d) as u128, den: 2 * a };
        proof {
            assert forall|w: real| #[trigger]
                is_sqrt(w, -self.discriminant_real()) implies imag.denotes(
                imaginary_part(self.a@, w),
            ) by {
                lemma_imaginary_micro(
                    self.a.micros as int,
                    self.b.micros as int,
                    self.c.micros as int,
                    w,
                );
            }
        }
        Roots::TwoComplex { re: vertex.0, imag }
    }

    /// The roots of the equation: two real ones where the discriminant is
    /// positive, one where it is zero, a complex pair where it is negative.
    pub fn calculate_roots(&self) -> (r: Roots)
        ensures
            roots_of(r, self.spec_a()@, self.spec_b()@, self.spec_c()@),
            self.discriminant_real() > 0real <==> r is TwoReal,
            self.discriminant_real() == 0real <==> r is OneReal,
            self.discriminant_real() < 0real <==> r is TwoComplex,
    {
        let d: i128 = self.scaled_discriminant();
        if d > 0 {
            self.two_real_roots()
        } else if d == 0 {
            self.one_real_root()
        } else {
            self.two_complex_roots()
        }
    }
}

} // verus!
