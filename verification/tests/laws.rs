use quadratic::equation::{QuadraticEquation, Roots};
use quadratic::error::QuadraticError;
use quadratic::number::{Decimal, Ratio};
use quadratic::surd::Surd;

fn decimal(text: &str) -> Decimal {
    Decimal::parse(text).unwrap()
}

fn equation(a: &str, b: &str, c: &str) -> QuadraticEquation {
    QuadraticEquation::new(decimal(a), decimal(b), decimal(c)).unwrap()
}

fn ratio(q: &Ratio) -> f64 {
    q.num() as f64 / q.den() as f64
}

fn surd(s: &Surd) -> f64 {
    (s.num() as f64 + (s.radicand() as f64).sqrt()) / s.den() as f64
}

const SAMPLES: [(&str, &str, &str); 12] = [
    ("1", "-3", "2"),
    ("1", "2", "1"),
    ("1", "0", "1"),
    ("2", "-4", "1"),
    ("-3", "2", "-1"),
    ("0.1", "0.3", "0.2"),
    ("-0.5", "4.25", "-0.000001"),
    ("7", "0", "-3"),
    ("-1", "0", "0"),
    ("100000000", "100000000", "-100000000"),
    ("0.000001", "0.000002", "0.000001"),
    ("3", "-7.5", "4.6875"),
];

#[test]
fn discriminant_is_b_squared_minus_four_a_c() {
    assert_eq!(equation("1", "-3", "2").discriminant().count, 100);
    assert_eq!(equation("2", "5", "3").discriminant().count, 100);
    assert_eq!(equation("3", "5", "2").discriminant().count, 100);
    assert_eq!(equation("2", "-5", "3").discriminant().count, 100);
    assert_eq!(equation("0.1", "0.3", "0.2").discriminant().count, 1);
    assert_eq!(equation("1", "0.1", "0").discriminant().count, 1);
    assert_eq!(equation("1", "0.07", "0").discriminant().count, 0);
    assert_eq!(equation("1", "0.071", "0").discriminant().count, 1);
    assert_eq!(equation("1", "0", "0.00125").discriminant().count, -1);
    assert_eq!(equation("1", "0", "0.001249").discriminant().count, 0);
    assert_eq!(
        equation("100000000", "100000000", "-100000000")
            .discriminant()
            .count,
        5_000_000_000_000_000_000
    );
    let raw = equation("0.5", "0.25", "-0.125").raw_discriminant();
    // 0.0625 + 0.25 = 0.3125
    assert_eq!(raw.num() * 10_000, 3125 * raw.den());
}

#[test]
fn discriminant_does_not_depend_on_the_order_of_a_and_c() {
    for (a, b, c) in SAMPLES {
        if c == "0" {
            continue;
        }
        let one = equation(a, b, c).raw_discriminant();
        let other = equation(c, b, a).raw_discriminant();
        assert_eq!(one.num() * other.den(), other.num() * one.den());
        assert_eq!(
            equation(a, b, c).discriminant(),
            equation(c, b, a).discriminant()
        );
    }
}

#[test]
fn sign_of_the_discriminant_selects_the_case() {
    for (a, b, c) in SAMPLES {
        let eq = equation(a, b, c);
        let d = eq.raw_discriminant().num();
        let roots = eq.calculate_roots();
        match roots {
            Roots::TwoReal { .. } => assert!(d > 0),
            Roots::OneReal { .. } => assert!(d == 0),
            Roots::TwoComplex { .. } => assert!(d < 0),
        }
    }
    assert!(matches!(
        equation("1", "0", "-0.000001").calculate_roots(),
        Roots::TwoReal { .. }
    ));
    assert!(matches!(
        equation("1", "0", "0.000001").calculate_roots(),
        Roots::TwoComplex { .. }
    ));
    assert!(matches!(
        equation("1", "0.000002", "0").calculate_roots(),
        Roots::TwoReal { .. }
    ));
    assert!(matches!(
        equation("3", "-7.5", "4.6875").calculate_roots(),
        Roots::OneReal { .. }
    ));
}

#[test]
fn case_has_its_name() {
    assert_eq!(
        equation("1", "-3", "2").calculate_roots().classification(),
        "two real roots"
    );
    assert_eq!(
        equation("1", "2", "1").calculate_roots().classification(),
        "one real root"
    );
    assert_eq!(
        equation("1", "0", "1").calculate_roots().classification(),
        "two complex roots"
    );
}

#[test]
fn repeated_root_is_the_vertex_abscissa() {
    let eq = equation("3", "-7.5", "4.6875");
    match eq.calculate_roots() {
        Roots::OneReal { x } => {
            let vertex = eq.raw_vertex();
            assert_eq!(x.num(), vertex.0.num());
            assert_eq!(x.den(), vertex.0.den());
            assert_eq!(x.num() * 4, 5 * x.den());
            assert!(vertex.1.is_zero());
        }
        other => panic!("unexpected roots: {:?}", other),
    }
}

#[test]
fn real_roots_solve_the_equation() {
    for (a, b, c) in SAMPLES {
        let eq = equation(a, b, c);
        let (fa, fb, fc): (f64, f64, f64) =
            (a.parse().unwrap(), b.parse().unwrap(), c.parse().unwrap());
        if let Roots::TwoReal { x1, x2 } = eq.calculate_roots() {
            for x in [surd(&x1), surd(&x2)] {
                let scale = fa.abs() * x * x + fb.abs() * x.abs() + fc.abs();
                assert!((fa * x * x + fb * x + fc).abs() <= 1e-9 * scale);
            }
            if fa > 0.0 {
                assert!(surd(&x1) > surd(&x2));
            } else {
                assert!(surd(&x1) < surd(&x2));
            }
        }
    }
}

#[test]
fn mean_of_the_real_roots_is_the_vertex_abscissa() {
    for (a, b, c) in SAMPLES {
        let eq = equation(a, b, c);
        if let Roots::TwoReal { x1, x2 } = eq.calculate_roots() {
            let h1 = x1.round2().count;
            let h2 = x2.round2().count;
            let hv = eq.vertex().0.count;
            // |(h1 + h2) / 2 − hv| ≤ 1 hundredth
            assert!((h1 + h2 - 2 * hv).abs() <= 2);
            let exact = eq.raw_vertex().0;
            assert!(((surd(&x1) + surd(&x2)) / 2.0 - ratio(&exact)).abs() <= 1e-9);
        }
    }
}

#[test]
fn complex_roots_solve_the_equation() {
    // x² + 2x + 5: roots −1 ± 2i
    let eq = equation("1", "2", "5");
    match eq.calculate_roots() {
        Roots::TwoComplex { re, imag } => {
            assert_eq!(re.num(), -re.den());
            assert_eq!(imag.round2().count, 200);
            let (re, im) = (ratio(&re), surd(&imag));
            assert_eq!(1.0 * (re * re - im * im) + 2.0 * re + 5.0, 0.0);
            assert_eq!(2.0 * 1.0 * re * im + 2.0 * im, 0.0);
        }
        other => panic!("unexpected roots: {:?}", other),
    }
    for (a, b, c) in SAMPLES {
        let eq = equation(a, b, c);
        let (fa, fb, fc): (f64, f64, f64) =
            (a.parse().unwrap(), b.parse().unwrap(), c.parse().unwrap());
        if let Roots::TwoComplex { re, imag } = eq.calculate_roots() {
            let (re, im) = (ratio(&re), surd(&imag));
            let scale = fa.abs() * (re * re + im * im) + fb.abs() * re.abs() + fc.abs();
            assert!((fa * (re * re - im * im) + fb * re + fc).abs() <= 1e-9 * scale);
            assert!((2.0 * fa * re * im + fb * im).abs() <= 1e-9 * scale);
            // the imaginary part has the sign of `a`
            assert_eq!(im > 0.0, fa > 0.0);
        }
    }
}

#[test]
fn vertex_is_the_turning_point() {
    for (a, b, c) in SAMPLES {
        let eq = equation(a, b, c);
        let (fa, fb, fc): (f64, f64, f64) =
            (a.parse().unwrap(), b.parse().unwrap(), c.parse().unwrap());
        let (xv, yv) = eq.raw_vertex();
        let (xv, yv) = (ratio(&xv), ratio(&yv));
        assert!((xv - (-fb / (2.0 * fa))).abs() <= 1e-9 * (1.0 + xv.abs()));
        let expected = fa * xv * xv + fb * xv + fc;
        assert!((yv - expected).abs() <= 1e-6 * (1.0 + expected.abs()));
    }
    let v = equation("1", "-3", "2").raw_vertex();
    assert_eq!((v.0.num() * 2, v.1.num() * 4), (3 * v.0.den(), -v.1.den()));
    let v = equation("-2", "1", "0").vertex();
    assert_eq!((v.0.count, v.1.count), (25, 13));
    let v = equation("2", "-1", "0").vertex();
    assert_eq!((v.0.count, v.1.count), (25, -13));
}

#[test]
fn zero_leading_coefficient_is_always_refused() {
    for b in ["0", "1", "-3.5", "100000000"] {
        for c in ["0", "1", "-0.000001"] {
            for zero in ["0", "-0", "0.0", "+0.000000", " 0 "] {
                let result = QuadraticEquation::new(decimal(zero), decimal(b), decimal(c));
                match result {
                    Err(QuadraticError::InvalidArguments(msg)) => assert_eq!(
                        msg,
                        "Coefficient 'a' cannot be zero (would make this a linear equation)"
                    ),
                    other => panic!("unexpected result: {:?}", other),
                }
            }
        }
    }
    assert!(QuadraticEquation::new(decimal("0.000001"), decimal("0"), decimal("0")).is_ok());
    assert!(QuadraticEquation::new(decimal("-0.000001"), decimal("0"), decimal("0")).is_ok());
}

#[test]
fn equation_keeps_its_coefficients() {
    let eq = equation("1.5", "-2.25", "0.125");
    assert_eq!(eq.a().micros(), 1_500_000);
    assert_eq!(eq.b().micros(), -2_250_000);
    assert_eq!(eq.c().micros(), 125_000);
}

#[test]
fn cases_can_be_asked_for_by_name() {
    assert!(matches!(
        equation("1", "-3", "2").two_real_roots(),
        Roots::TwoReal { .. }
    ));
    assert!(matches!(
        equation("1", "2", "1").one_real_root(),
        Roots::OneReal { .. }
    ));
    assert!(matches!(
        equation("1", "0", "1").two_complex_roots(),
        Roots::TwoComplex { .. }
    ));
}

#[test]
fn repeated_root_is_the_same_number_twice() {
    for (a, b, c) in [("1", "2", "1"), ("3", "-7.5", "4.6875"), ("-4", "4", "-1"), ("1", "0", "0")] {
        let roots = equation(a, b, c).calculate_roots();
        let (x1, x2) = (roots.x1().unwrap(), roots.x2().unwrap());
        assert_eq!(
            (x1.num(), x1.radicand(), x1.den()),
            (x2.num(), x2.radicand(), x2.den())
        );
        assert_eq!(x1.radicand(), 0);
        assert_eq!(x1.round2(), x2.round2());
    }
}

#[test]
fn real_roots_are_had_by_number() {
    let roots = equation("1", "-3", "2").calculate_roots();
    assert_eq!(roots.x1().unwrap().round2().count, 200);
    assert_eq!(roots.x2().unwrap().round2().count, 100);
    let roots = equation("1", "0", "1").calculate_roots();
    assert!(roots.x1().is_none());
    assert!(roots.x2().is_none());
}
