use quadratic::equation::{QuadraticEquation, Roots};
use quadratic::number::{Decimal, Ratio};
use quadratic::surd::Surd;

fn ratio(q: &Ratio) -> f64 {
    q.num() as f64 / q.den() as f64
}

fn surd(s: &Surd) -> f64 {
    (s.num() as f64 + (s.radicand() as f64).sqrt()) / s.den() as f64
}

/// Whether `count` hundredths is `value` rounded to two decimal places, as
/// far as floating point can tell: within half a hundredth, give or take.
fn is_rounded(count: i128, value: f64) -> bool {
    (count as f64 - 100.0 * value).abs() <= 0.5 + 1e-6
}

/// Every equation whose coefficients are quarters between −3 and 3.
fn quarters() -> Vec<(i64, i64, i64)> {
    let mut all = Vec::new();
    for a in -12..=12 {
        for b in -12..=12 {
            for c in -12..=12 {
                if a != 0 {
                    all.push((a * 250_000, b * 250_000, c * 250_000));
                }
            }
        }
    }
    all
}

fn equation(a: i64, b: i64, c: i64) -> QuadraticEquation {
    QuadraticEquation::new(
        Decimal::from_micros(a).unwrap(),
        Decimal::from_micros(b).unwrap(),
        Decimal::from_micros(c).unwrap(),
    )
    .unwrap()
}

#[test]
fn solutions_agree_with_floating_point_on_a_grid() {
    for (a, b, c) in quarters() {
        let eq = equation(a, b, c);
        let (fa, fb, fc) = (a as f64 / 1e6, b as f64 / 1e6, c as f64 / 1e6);
        let d = fb * fb - 4.0 * fa * fc;
        assert_eq!(ratio(&eq.raw_discriminant()), d);
        assert_eq!(eq.discriminant().count as f64, (d * 100.0).round());
        let (xv, yv) = eq.raw_vertex();
        assert!((ratio(&xv) - (-fb / (2.0 * fa))).abs() <= 1e-12);
        assert!((ratio(&yv) - (fc - fb * fb / (4.0 * fa))).abs() <= 1e-12);
        let shown = eq.vertex();
        assert!(is_rounded(shown.0.count, ratio(&xv)));
        assert!(is_rounded(shown.1.count, ratio(&yv)));
        match eq.calculate_roots() {
            Roots::TwoReal { x1, x2 } => {
                assert!(d > 0.0);
                assert!((surd(&x1) - (-fb + d.sqrt()) / (2.0 * fa)).abs() <= 1e-12);
                assert!((surd(&x2) - (-fb - d.sqrt()) / (2.0 * fa)).abs() <= 1e-12);
                assert!(is_rounded(x1.round2().count, surd(&x1)));
                assert!(is_rounded(x2.round2().count, surd(&x2)));
                assert_eq!(x1.is_zero(), surd(&x1) == 0.0);
                assert_eq!(x2.is_zero(), surd(&x2) == 0.0);
            }
            Roots::OneReal { x } => {
                assert!(d == 0.0);
                assert_eq!(ratio(&x), -fb / (2.0 * fa));
                assert!(is_rounded(x.round2().count, ratio(&x)));
            }
            Roots::TwoComplex { re, imag } => {
                assert!(d < 0.0);
                assert_eq!(ratio(&re), -fb / (2.0 * fa));
                assert!((surd(&imag) - (-d).sqrt() / (2.0 * fa)).abs() <= 1e-12);
                assert!(is_rounded(imag.round2().count, surd(&imag)));
            }
        }
    }
}

#[test]
fn ranges_agree_with_floating_point_on_a_grid() {
    for (a, b, c) in quarters() {
        let eq = equation(a, b, c);
        let (fa, fb, fc) = (a as f64 / 1e6, b as f64 / 1e6, c as f64 / 1e6);
        let f = |x: f64| fa * x * x + fb * x + fc;
        let d = fb * fb - 4.0 * fa * fc;
        let xv = -fb / (2.0 * fa);
        let yv = f(xv);
        let (x1, x2) = if d > 0.0 {
            ((-fb + d.sqrt()) / (2.0 * fa), (-fb - d.sqrt()) / (2.0 * fa))
        } else {
            (xv, xv)
        };
        let (x_min, x_max) = if d < 0.0 || (x1 == 0.0 && x2 == 0.0) {
            (xv - 5.0, xv + 5.0)
        } else {
            let lo = x1.min(x2).min(xv);
            let hi = x1.max(x2).max(xv);
            (lo - (hi - lo) * 0.2, hi + (hi - lo) * 0.2)
        };
        let lo = yv.min(f(x_min)).min(f(x_max));
        let hi = yv.max(f(x_min)).max(f(x_max));
        let (y_min, y_max) = (lo - (hi - lo) * 0.2, hi + (hi - lo) * 0.2);
        let p = eq.plot_bounds();
        assert!((surd(&p.x_min) - x_min).abs() <= 1e-9, "{} {} {}", a, b, c);
        assert!((surd(&p.x_max) - x_max).abs() <= 1e-9, "{} {} {}", a, b, c);
        assert!((ratio(&p.y_min) - y_min).abs() <= 1e-9 * (1.0 + y_min.abs()));
        assert!((ratio(&p.y_max) - y_max).abs() <= 1e-9 * (1.0 + y_max.abs()));
        let (exact_xv, exact_yv) = eq.raw_vertex();
        assert!(surd(&p.x_min) <= ratio(&exact_xv) && ratio(&exact_xv) <= surd(&p.x_max));
        assert!(ratio(&p.y_min) <= ratio(&exact_yv) && ratio(&exact_yv) <= ratio(&p.y_max));
        let marks: Vec<f64> = eq.root_markers().iter().map(surd).collect();
        let mut expected = Vec::new();
        if d >= 0.0 {
            if x1 != 0.0 {
                expected.push(x1);
            }
            if x2 != 0.0 && x2 != x1 {
                expected.push(x2);
            }
        }
        assert_eq!(marks.len(), expected.len(), "{} {} {}", a, b, c);
        for (m, e) in marks.iter().zip(expected.iter()) {
            assert!((m - e).abs() <= 1e-12);
        }
    }
}
