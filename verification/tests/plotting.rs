use quadratic::equation::QuadraticEquation;
use quadratic::number::{Decimal, Ratio};
use quadratic::plot::{PlotBounds, SAMPLE_STEPS};
use quadratic::surd::Surd;

fn equation(a: &str, b: &str, c: &str) -> QuadraticEquation {
    QuadraticEquation::new(
        Decimal::parse(a).unwrap(),
        Decimal::parse(b).unwrap(),
        Decimal::parse(c).unwrap(),
    )
    .unwrap()
}

fn ratio(q: &Ratio) -> f64 {
    q.num() as f64 / q.den() as f64
}

fn surd(s: &Surd) -> f64 {
    (s.num() as f64 + (s.radicand() as f64).sqrt()) / s.den() as f64
}

fn close(x: f64, y: f64) -> bool {
    (x - y).abs() <= 1e-9 * (1.0 + y.abs())
}

/// Whether `q` is exactly `num / den`.
fn is_ratio(q: &Ratio, num: i128, den: i128) -> bool {
    q.num() * den == num * q.den()
}

/// Whether `s` is exactly the rational number `num / den`.
fn is_rational(s: &Surd, num: i128, den: i128) -> bool {
    // (p + √r) / q = num / den  with  √r = t  an integer
    let t = (s.radicand() as f64).sqrt().round() as i128;
    (t * t) as u128 == s.radicand() && (s.num() + t) * den == num * s.den()
}

fn assert_bounds(p: &PlotBounds, x_min: f64, x_max: f64, y_min: f64, y_max: f64) {
    assert!(close(surd(&p.x_min), x_min), "x_min {}", surd(&p.x_min));
    assert!(close(surd(&p.x_max), x_max), "x_max {}", surd(&p.x_max));
    assert!(close(ratio(&p.y_min), y_min), "y_min {}", ratio(&p.y_min));
    assert!(close(ratio(&p.y_max), y_max), "y_max {}", ratio(&p.y_max));
}

#[test]
fn ranges_span_two_real_roots() {
    // roots 1 and 2, vertex (1.5, −0.25)
    let p = equation("1", "-3", "2").plot_bounds();
    assert_bounds(&p, 0.8, 2.2, -0.348, 0.338);
    assert!(is_rational(&p.x_min, 4, 5));
    assert!(is_rational(&p.x_max, 11, 5));
    assert!(is_ratio(&p.y_min, -348, 1000));
    assert!(is_ratio(&p.y_max, 338, 1000));
}

#[test]
fn ranges_span_two_real_roots_of_a_parabola_that_opens_downward() {
    // roots 1 and 2, vertex (1.5, 0.25)
    let p = equation("-1", "3", "-2").plot_bounds();
    assert_bounds(&p, 0.8, 2.2, -0.338, 0.348);
    assert!(is_rational(&p.x_min, 4, 5));
    assert!(is_rational(&p.x_max, 11, 5));
    assert!(is_ratio(&p.y_min, -338, 1000));
    assert!(is_ratio(&p.y_max, 348, 1000));
}

#[test]
fn ranges_span_irrational_roots() {
    // 2x² − 4x + 1: roots 1 ± √2/2, vertex (1, −1)
    let p = equation("2", "-4", "1").plot_bounds();
    let half_span = 2f64.sqrt() / 2.0;
    assert_bounds(
        &p,
        1.0 - 1.4 * half_span,
        1.0 + 1.4 * half_span,
        -1.392,
        1.352,
    );
    assert!(is_ratio(&p.y_min, -1392, 1000));
    assert!(is_ratio(&p.y_max, 1352, 1000));
}

#[test]
fn ranges_span_a_root_at_the_origin_and_another() {
    // x² − x: roots 1 and 0, vertex (0.5, −0.25)
    let p = equation("1", "-1", "0").plot_bounds();
    assert_bounds(&p, -0.2, 1.2, -0.348, 0.338);
}

#[test]
fn ranges_are_ten_wide_about_the_vertex_of_a_complex_pair() {
    // vertex (0, 1); the curve is at 26 at both ends
    let p = equation("1", "0", "1").plot_bounds();
    assert_bounds(&p, -5.0, 5.0, -4.0, 31.0);
    assert!(is_rational(&p.x_min, -5, 1));
    assert!(is_rational(&p.x_max, 5, 1));
    assert!(is_ratio(&p.y_min, -4, 1));
    assert!(is_ratio(&p.y_max, 31, 1));
    // vertex (0, −1); the curve is at −26 at both ends
    let p = equation("-1", "0", "-1").plot_bounds();
    assert_bounds(&p, -5.0, 5.0, -31.0, 4.0);
    // vertex (−1, 2); the curve is at 0.5·25 + 2 = 14.5 at both ends
    let p = equation("0.5", "1", "2.5").plot_bounds();
    assert_bounds(&p, -6.0, 4.0, -0.5, 17.0);
}

#[test]
fn ranges_are_ten_wide_about_a_double_root_at_the_origin() {
    let p = equation("1", "0", "0").plot_bounds();
    assert_bounds(&p, -5.0, 5.0, -5.0, 30.0);
    let p = equation("-2", "0", "0").plot_bounds();
    assert_bounds(&p, -5.0, 5.0, -60.0, 10.0);
}

#[test]
fn ranges_have_no_width_about_a_double_root_elsewhere() {
    let p = equation("1", "2", "1").plot_bounds();
    assert_bounds(&p, -1.0, -1.0, 0.0, 0.0);
    assert!(is_rational(&p.x_min, -1, 1));
    assert!(is_rational(&p.x_max, -1, 1));
    assert!(p.y_min.is_zero());
    assert!(p.y_max.is_zero());
    let p = equation("-4", "4", "-1").plot_bounds();
    assert_bounds(&p, 0.5, 0.5, 0.0, 0.0);
}

#[test]
fn ranges_hold_at_the_largest_coefficients() {
    let p = equation("100000000", "-100000000", "-100000000").plot_bounds();
    // roots (1 ± √5) / 2, vertex (0.5, −1.25e8)
    let half_span = 5f64.sqrt() / 2.0;
    assert!(close(surd(&p.x_min), 0.5 - 1.4 * half_span));
    assert!(close(surd(&p.x_max), 0.5 + 1.4 * half_span));
    assert!(close(ratio(&p.y_min), -1.74e8));
    assert!(close(ratio(&p.y_max), 1.69e8));
    let p = equation("0.000001", "100000000", "100000000").plot_bounds();
    assert!(surd(&p.x_min) < surd(&p.x_max));
    assert!(ratio(&p.y_min) < ratio(&p.y_max));
    let p = equation("-0.000001", "0", "-100000000").plot_bounds();
    assert_bounds(&p, -5.0, 5.0, -100_000_000.00003, -99_999_999.999995);
}

fn marks(a: &str, b: &str, c: &str) -> Vec<i128> {
    equation(a, b, c)
        .root_markers()
        .iter()
        .map(|s| s.round2().count)
        .collect()
}

#[test]
fn both_real_roots_are_marked() {
    assert_eq!(marks("1", "-3", "2"), vec![200, 100]);
    assert_eq!(marks("-1", "3", "-2"), vec![100, 200]);
    assert_eq!(marks("2", "-4", "1"), vec![171, 29]);
}

#[test]
fn a_root_at_the_origin_is_not_marked() {
    assert_eq!(marks("1", "-1", "0"), vec![100]);
    assert_eq!(marks("1", "1", "0"), vec![-100]);
    assert_eq!(marks("-1", "1", "0"), vec![100]);
    assert_eq!(marks("-1", "-1", "0"), vec![-100]);
    assert_eq!(marks("1", "0", "0"), Vec::<i128>::new());
}

#[test]
fn a_double_root_is_marked_once() {
    assert_eq!(marks("1", "2", "1"), vec![-100]);
    assert_eq!(marks("-4", "4", "-1"), vec![50]);
}

#[test]
fn complex_roots_are_not_marked() {
    assert_eq!(marks("1", "0", "1"), Vec::<i128>::new());
    assert_eq!(marks("-3", "2", "-1"), Vec::<i128>::new());
}

#[test]
fn a_small_root_that_rounds_to_zero_is_still_marked() {
    // x² − 0.003x + 0.000002: roots 0.002 and 0.001
    assert_eq!(marks("1", "-0.003", "0.000002"), vec![0, 0]);
    let p = equation("1", "-0.003", "0.000002").plot_bounds();
    assert_bounds(&p, 0.0008, 0.0022, -0.000000348, 0.000000338);
}

#[test]
fn the_curve_is_sampled_in_a_hundred_steps() {
    assert_eq!(SAMPLE_STEPS, 100);
}

#[test]
fn marks_are_labelled_with_rounded_coordinates() {
    let eq = equation("2", "-4", "1");
    assert_eq!(eq.vertex_label(), "(1, -1)");
    let labels: Vec<String> = eq.root_markers().iter().map(|m| m.root_label()).collect();
    assert_eq!(labels, vec!["(1.71, 0.0)", "(0.29, 0.0)"]);
    assert_eq!(equation("1", "-3", "2").vertex_label(), "(1.5, -0.25)");
    assert_eq!(equation("1", "0", "1").vertex_label(), "(0, 1)");
    assert_eq!(
        Surd::new(-1, 0, 3).unwrap().root_label(),
        "(-0.33, 0.0)"
    );
}

#[test]
fn complex_roots_are_noted_in_place_of_marks() {
    assert_eq!(
        equation("1", "0", "1").calculate_roots().plot_note(),
        Some("Note: Complex roots are not displayed on the plot")
    );
    assert_eq!(equation("1", "-3", "2").calculate_roots().plot_note(), None);
    assert_eq!(equation("1", "2", "1").calculate_roots().plot_note(), None);
}

fn samples(a: &str, b: &str, c: &str) -> Vec<(f64, f64)> {
    equation(a, b, c)
        .sample_points()
        .iter()
        .map(|(x, y)| (surd(x), ratio(y)))
        .collect()
}

fn assert_samples_follow_the_curve(a: &str, b: &str, c: &str) {
    let eq = equation(a, b, c);
    let p = eq.plot_bounds();
    let (x_min, x_max) = (surd(&p.x_min), surd(&p.x_max));
    let (fa, fb, fc): (f64, f64, f64) = (a.parse().unwrap(), b.parse().unwrap(), c.parse().unwrap());
    let points = samples(a, b, c);
    assert_eq!(points.len(), 101);
    for (i, (x, y)) in points.iter().enumerate() {
        let expected_x = x_min + (x_max - x_min) * (i as f64 / 100.0);
        let expected_y = fa * expected_x * expected_x + fb * expected_x + fc;
        let scale = 1.0 + fa.abs() * x * x + fb.abs() * x.abs() + fc.abs();
        assert!((x - expected_x).abs() <= 1e-9 * (1.0 + x.abs()), "x {} of {}", i, x);
        assert!((y - expected_y).abs() <= 1e-9 * scale, "y {} of {}", i, y);
        let single = eq.sample_point(i as u32);
        assert!(close(surd(&single.0), *x) && close(ratio(&single.1), *y));
    }
}

#[test]
fn curve_is_sampled_between_the_ends_of_the_range() {
    // roots 1 and 2, vertex (1.5, −0.25), range from 0.8 to 2.2
    let points = samples("1", "-3", "2");
    assert_eq!(points.len(), 101);
    assert!(close(points[0].0, 0.8) && close(points[0].1, 0.24));
    assert!(close(points[25].0, 1.15) && close(points[25].1, -0.1275));
    assert!(close(points[50].0, 1.5) && close(points[50].1, -0.25));
    assert!(close(points[100].0, 2.2) && close(points[100].1, 0.24));
    let exact = equation("1", "-3", "2").sample_point(25);
    assert!(is_rational(&exact.0, 115, 100));
    assert!(is_ratio(&exact.1, -1275, 10000));
}

#[test]
fn curve_is_sampled_about_the_vertex_of_a_complex_pair() {
    // vertex (0, 1), range from −5 to 5
    let points = samples("1", "0", "1");
    assert!(close(points[0].0, -5.0) && close(points[0].1, 26.0));
    assert!(close(points[1].0, -4.9) && close(points[1].1, 25.01));
    assert!(close(points[50].0, 0.0) && close(points[50].1, 1.0));
    assert!(close(points[73].0, 2.3) && close(points[73].1, 6.29));
    assert!(close(points[100].0, 5.0) && close(points[100].1, 26.0));
    let exact = equation("1", "0", "1").sample_point(73);
    assert!(is_rational(&exact.0, 23, 10));
    assert!(is_ratio(&exact.1, 629, 100));
}

#[test]
fn curve_is_sampled_at_a_double_root_alone() {
    for (x, y) in samples("1", "2", "1") {
        assert_eq!((x, y), (-1.0, 0.0));
    }
}

#[test]
fn samples_follow_the_curve() {
    assert_samples_follow_the_curve("1", "-3", "2");
    assert_samples_follow_the_curve("-1", "3", "-2");
    assert_samples_follow_the_curve("2", "-4", "1");
    assert_samples_follow_the_curve("-3", "2", "-1");
    assert_samples_follow_the_curve("0.5", "1", "2.5");
    assert_samples_follow_the_curve("1", "0", "0");
    assert_samples_follow_the_curve("-2", "0", "0");
    assert_samples_follow_the_curve("7", "0", "-3");
    assert_samples_follow_the_curve("-0.5", "4.25", "-0.000001");
    assert_samples_follow_the_curve("100000000", "-100000000", "-100000000");
    assert_samples_follow_the_curve("-100000000", "100000000", "100000000");
    assert_samples_follow_the_curve("0.000001", "0.000003", "0.000002");
}
