//! The lines in which a solved equation is reported.

use vstd::prelude::*;
use vstd::string::StringExecFns;
use crate::algebra::{
    abs,
    discriminant_of,
    imaginary_part,
    is_sqrt,
    lemma_round_half_away_odd,
    root_minus,
    root_plus,
    round_half_away,
    vertex_x,
    vertex_y,
};
use crate::equation::{micro, QuadraticEquation, Roots};
use crate::number::Hundredths;
use crate::render::{fixed_text, push_fixed};
use crate::surd::Surd;

verus! {

/// The text of `x` rounded to two decimal places.
pub open spec fn shown(x: real) -> Seq<char> {
    fixed_text(round_half_away(100real * x), 2, false)
}

/// The text of `x` rounded to two decimal places, with its sign written
/// also where it is `+`.
pub open spec fn shown_signed(x: real) -> Seq<char> {
    fixed_text(round_half_away(100real * x), 2, true)
}

/// The equation as text: `{a}x^2 {b}x {c} = 0`, with the signs of `b` and `c`
/// written out.  The coefficients are given in millionths.
pub open spec fn equation_text(a: int, b: int, c: int) -> Seq<char> {
    fixed_text(a, 6, false) + "x^2 "@ + fixed_text(b, 6, true) + "x "@ + fixed_text(c, 6, true)
        + " = 0"@
}

/// The line `name = value`, for a coefficient of `micros` millionths.
pub open spec fn coefficient_text(name: Seq<char>, micros: int) -> Seq<char> {
    name + " = "@ + fixed_text(micros, 6, false)
}

/// The line that says how the discriminant `d` compares with zero.
pub open spec fn sign_line(d: real) -> Seq<char> {
    if d > 0real {
        "Discriminant > 0"@
    } else if d == 0real {
        "Discriminant = 0"@
    } else {
        "Discriminant < 0"@
    }
}

/// The line that names the case of the roots.
pub open spec fn classification_line(d: real) -> Seq<char> {
    if d > 0real {
        "two real roots"@
    } else if d == 0real {
        "one real root"@
    } else {
        "two complex roots"@
    }
}

/// The lines that give the roots of `a·x² + b·x + c`, each number rounded to
/// two decimal places.  `w` is the square root of the absolute value of the
/// discriminant.
pub open spec fn roots_lines(a: real, b: real, c: real, w: real) -> Seq<Seq<char>> {
    let d = discriminant_of(a, b, c);
    if d > 0real {
        seq![
            "x_1 = "@ + shown(root_plus(a, b, w)) + ", x_2 = "@ + shown(root_minus(a, b, w)),
        ]
    } else if d == 0real {
        seq!["x = "@ + shown(vertex_x(a, b))]
    } else {
        seq![
            "x_1 = "@ + shown(vertex_x(a, b)) + " "@ + shown_signed(imaginary_part(a, w)) + "i"@,
            "x_2 = "@ + shown(vertex_x(a, b)) + " "@ + shown_signed(-imaginary_part(a, w)) + "i"@,
        ]
    }
}

/// The lines of the report on the equation whose coefficients are `a`, `b`
/// and `c` millionths: the coefficients, the equation, the discriminant, the
/// case, the roots and the vertex, with empty lines between the parts.
pub open spec fn report_lines(a: int, b: int, c: int, w: real) -> Seq<Seq<char>> {
    let d = discriminant_of(micro(a), micro(b), micro(c));
    seq![
        coefficient_text("a"@, a),
        coefficient_text("b"@, b),
        coefficient_text("c"@, c),
        equation_text(a, b, c),
        Seq::<char>::empty(),
        "Discriminant = "@ + shown(d),
        Seq::<char>::empty(),
        sign_line(d),
        Seq::<char>::empty(),
        classification_line(d),
        Seq::<char>::empty(),
    ] + roots_lines(micro(a), micro(b), micro(c), w) + seq![
        Seq::<char>::empty(),
        "Vertex ("@ + shown(vertex_x(micro(a), micro(b))) + ", "@ + shown(
            vertex_y(micro(a), micro(b), micro(c)),
        ) + ")"@,
    ]
}

/// The label of the mark at the vertex `(xv, yv)`.
pub open spec fn vertex_label_text(xv: real, yv: real) -> Seq<char> {
    "("@ + shown(xv) + ", "@ + shown(yv) + ")"@
}

/// The label of the mark at the root `x`.
pub open spec fn root_label_text(x: real) -> Seq<char> {
    "("@ + shown(x) + ", 0.0)"@
}

/// Each string of `lines` is the text at its place in `texts`.
pub open spec fn lines_are(lines: Seq<String>, texts: Seq<Seq<char>>) -> bool {
    &&& lines.len() == texts.len()
    &&& forall|i: int| 0 <= i < lines.len() ==> (#[trigger] lines[i])@ == texts[i]
}

/// The line `name = value`, for a coefficient of `micros` millionths.
fn coefficient_line(name: &str, micros: i64) -> (line: String)
    ensures
        line@ == coefficient_text(name@, micros as int),
{
    let mut line: String = String::from_str(name);
    line.append(" = ");
    push_fixed(&mut line, micros as i128, 6, false);
    line
}

/// `head`, then the number `h`.
fn labelled(head: &str, h: Hundredths) -> (line: String)
    ensures
        line@ == head@ + fixed_text(h.count as int, 2, false),
{
    let mut line: String = String::from_str(head);
    push_fixed(&mut line, h.count, 2, false);
    line
}

/// The line that gives one root of a complex pair.
fn complex_line(head: &str, re: Hundredths, im: i128) -> (line: String)
    ensures
        line@ == head@ + fixed_text(re.count as int, 2, false) + " "@ + fixed_text(
            im as int,
            2,
            true,
        ) + "i"@,
{
    let mut line: String = String::from_str(head);
    push_fixed(&mut line, re.count, 2, false);
    line.append(" ");
    push_fixed(&mut line, im, 2, true);
    line.append("i");
    line
}

impl Surd {
    /// The label of the mark at a root: the root rounded to two decimal
    /// places, and the ordinate zero.
    pub fn root_label(&self) -> (label: String)
        ensures
            forall|v: real| #[trigger] self.denotes(v) ==> label@ == root_label_text(v),
    {
        let mut label: String = String::from_str("(");
        push_fixed(&mut label, self.round2().count, 2, false);
        label.append(", 0.0)");
        label
    }
}

impl QuadraticEquation {
    /// The label of the mark at the vertex: its coordinates rounded to two
    /// decimal places.
    pub fn vertex_label(&self) -> (label: String)
        ensures
            label@ == vertex_label_text(
                vertex_x(self.spec_a()@, self.spec_b()@),
                vertex_y(self.spec_a()@, self.spec_b()@, self.spec_c()@),
            ),
    {
        let vertex: (Hundredths, Hundredths) = self.vertex();
        let mut label: String = String::from_str("(");
        push_fixed(&mut label, vertex.0.count, 2, false);
        label.append(", ");
        push_fixed(&mut label, vertex.1.count, 2, false);
        label.append(")");
        label
    }

    /// The equation as text: `{a}x^2 {b}x {c} = 0`, with the signs of `b` and
    /// `c` written out.
    pub fn to_text(&self) -> (s: String)
        ensures
            s@ == equation_text(
                self.spec_a().spec_micros() as int,
                self.spec_b().spec_micros() as int,
                self.spec_c().spec_micros() as int,
            ),
    {
        let mut s: String = String::new();
        push_fixed(&mut s, self.a.micros as i128, 6, false);
        s.append("x^2 ");
        push_fixed(&mut s, self.b.micros as i128, 6, true);
        s.append("x ");
        push_fixed(&mut s, self.c.micros as i128, 6, true);
        s.append(" = 0");
        proof {
            assert(s@ =~= equation_text(
                self.a.micros as int,
                self.b.micros as int,
                self.c.micros as int,
            ));
        }
        s
    }

    /// The lines of the report on the equation.  `w` ranges over the one
    /// real number that is the square root of the discriminant's absolute
    /// value.
    pub fn report(&self) -> (lines: Vec<String>)
        ensures
            forall|w: real| #[trigger]
                is_sqrt(w, abs(self.discriminant_real())) ==> lines_are(
                    lines@,
                    report_lines(
                        self.spec_a().spec_micros() as int,
                        self.spec_b().spec_micros() as int,
                        self.spec_c().spec_micros() as int,
                        w,
                    ),
                ),
    {
        let ghost ai = self.a.micros as int;
        let ghost bi = self.b.micros as int;
        let ghost ci = self.c.micros as int;
        let ghost av = self.a@;
        let ghost bv = self.b@;
        let ghost cv = self.c@;
        let ghost dv = self.discriminant_real();
        let mut lines: Vec<String> = Vec::new();
        lines.push(coefficient_line("a", self.a.micros));
        lines.push(coefficient_line("b", self.b.micros));
        lines.push(coefficient_line("c", self.c.micros));
        lines.push(self.to_text());
        lines.push(String::new());
        lines.push(labelled("Discriminant = ", self.discriminant()));
        lines.push(String::new());
        let roots: Roots = self.calculate_roots();
        let vertex: (Hundredths, Hundredths) = self.vertex();
        let mut vertex_line: String = String::from_str("Vertex (");
        push_fixed(&mut vertex_line, vertex.0.count, 2, false);
        vertex_line.append(", ");
        push_fixed(&mut vertex_line, vertex.1.count, 2, false);
        vertex_line.append(")");
        match roots {
            Roots::TwoReal { x1, x2 } => {
                lines.push(String::from_str("Discriminant > 0"));
                lines.push(String::new());
                lines.push(String::from_str(roots.classification()));
                lines.push(String::new());
                let h1: Hundredths = x1.round2();
                let h2: Hundredths = x2.round2();
                let mut line: String = labelled("x_1 = ", h1);
                line.append(", x_2 = ");
                push_fixed(&mut line, h2.count, 2, false);
                lines.push(line);
                lines.push(String::new());
                lines.push(vertex_line);
                proof {
                    assert forall|w: real| #[trigger] is_sqrt(w, abs(dv)) implies lines_are(
                        lines@,
                        report_lines(ai, bi, ci, w),
                    ) by {
                        assert(is_sqrt(w, discriminant_of(av, bv, cv)));
                        assert(x1.denotes(root_plus(av, bv, w)));
                        assert(x2.denotes(root_minus(av, bv, w)));
                        let texts = report_lines(ai, bi, ci, w);
                        assert(texts.len() == 14);
                        assert(lines@.len() == 14);
                        assert forall|i: int| 0 <= i < 14 implies (#[trigger] lines@[i])@
                            == texts[i] by {
                            assert(lines@[i]@ =~= texts[i]);
                        }
                    }
                }
            },
            Roots::OneReal { x } => {
                lines.push(String::from_str("Discriminant = 0"));
                lines.push(String::new());
                lines.push(String::from_str(roots.classification()));
                lines.push(String::new());
                lines.push(labelled("x = ", x.round2()));
                lines.push(String::new());
                lines.push(vertex_line);
                proof {
                    assert forall|w: real| #[trigger] is_sqrt(w, abs(dv)) implies lines_are(
                        lines@,
                        report_lines(ai, bi, ci, w),
                    ) by {
                        let texts = report_lines(ai, bi, ci, w);
                        assert(texts.len() == 14);
                        assert(lines@.len() == 14);
                        assert forall|i: int| 0 <= i < 14 implies (#[trigger] lines@[i])@
                            == texts[i] by {
                            assert(lines@[i]@ =~= texts[i]);
                        }
                    }
                }
            },
            Roots::TwoComplex { re, imag } => {
                lines.push(String::from_str("Discriminant < 0"));
                lines.push(String::new());
                lines.push(String::from_str(roots.classification()));
                lines.push(String::new());
                let shown_re: Hundredths = re.round2();
                let shown_im: Hundredths = imag.round2();
                lines.push(complex_line("x_1 = ", shown_re, shown_im.count));
                lines.push(complex_line("x_2 = ", shown_re, -shown_im.count));
                lines.push(String::new());
                lines.push(vertex_line);
                proof {
                    assert forall|w: real| #[trigger] is_sqrt(w, abs(dv)) implies lines_are(
                        lines@,
                        report_lines(ai, bi, ci, w),
                    ) by {
                        assert(is_sqrt(w, -discriminant_of(av, bv, cv)));
                        assert(imag.denotes(imaginary_part(av, w)));
                        lemma_round_half_away_odd(100real * imaginary_part(av, w));
                        assert(100real * (-imaginary_part(av, w)) == -(100real * imaginary_part(
                            av,
                            w,
                        )));
                        let texts = report_lines(ai, bi, ci, w);
                        assert(texts.len() == 15);
                        assert(lines@.len() == 15);
                        assert forall|i: int| 0 <= i < 15 implies (#[trigger] lines@[i])@
                            == texts[i] by {
                            assert(lines@[i]@ =~= texts[i]);
                        }
                    }
                }
            },
        }
        lines
    }
}

} // verus!
