use quadratic::number::Decimal;
use quadratic::text::{chars_of, digit_of, white_space};

fn micros(text: &str) -> Option<i64> {
    Decimal::parse(text).map(|d| d.micros())
}

#[test]
fn plain_numbers_are_read() {
    assert_eq!(micros("1"), Some(1_000_000));
    assert_eq!(micros("-4.5"), Some(-4_500_000));
    assert_eq!(micros("0.333"), Some(333_000));
    assert_eq!(micros("0"), Some(0));
    assert_eq!(micros("42"), Some(42_000_000));
    assert_eq!(micros("3.141592"), Some(3_141_592));
    assert_eq!(micros("0.000001"), Some(1));
    assert_eq!(micros("-0.000001"), Some(-1));
    assert_eq!(micros("12345678.123456"), Some(12_345_678_123_456));
}

#[test]
fn signs_and_bare_points_are_read() {
    assert_eq!(micros("+7"), Some(7_000_000));
    assert_eq!(micros("+7."), Some(7_000_000));
    assert_eq!(micros("1."), Some(1_000_000));
    assert_eq!(micros(".5"), Some(500_000));
    assert_eq!(micros("-.5"), Some(-500_000));
    assert_eq!(micros("+.25"), Some(250_000));
    assert_eq!(micros("-0"), Some(0));
    assert_eq!(micros("-0.0"), Some(0));
    assert_eq!(micros("007"), Some(7_000_000));
    assert_eq!(micros("0.50"), Some(500_000));
    assert_eq!(micros("1.000000"), Some(1_000_000));
    assert_eq!(
        micros("000000000000000000000000000000000000000001"),
        Some(1_000_000)
    );
}

#[test]
fn white_space_around_a_number_is_dropped() {
    assert_eq!(micros("  2.5"), Some(2_500_000));
    assert_eq!(micros("2.5  "), Some(2_500_000));
    assert_eq!(micros("\t2.5\n"), Some(2_500_000));
    assert_eq!(micros("\r\n -3 \u{b}\u{c}"), Some(-3_000_000));
    assert_eq!(micros("\u{3000}3\u{a0}"), Some(3_000_000));
    assert_eq!(micros("\u{85}\u{1680}\u{2000}\u{200a}\u{2028}\u{2029}\u{202f}\u{205f}9"), Some(9_000_000));
    assert_eq!(micros("1 2"), None);
    assert_eq!(micros("- 1"), None);
    assert_eq!(micros("1 ."), None);
    assert_eq!(micros("   "), None);
    assert_eq!(micros("\u{200b}1"), None);
}

#[test]
fn text_that_is_no_number_is_not_read() {
    assert_eq!(micros(""), None);
    assert_eq!(micros("."), None);
    assert_eq!(micros("-"), None);
    assert_eq!(micros("+"), None);
    assert_eq!(micros("-."), None);
    assert_eq!(micros("--1"), None);
    assert_eq!(micros("+-1"), None);
    assert_eq!(micros("1-"), None);
    assert_eq!(micros("1.2.3"), None);
    assert_eq!(micros("1..2"), None);
    assert_eq!(micros("..1"), None);
    assert_eq!(micros("abc"), None);
    assert_eq!(micros("12a"), None);
    assert_eq!(micros("a12"), None);
    assert_eq!(micros("1.a"), None);
    assert_eq!(micros("1,5"), None);
    assert_eq!(micros("1e5"), None);
    assert_eq!(micros("1E5"), None);
    assert_eq!(micros("inf"), None);
    assert_eq!(micros("NaN"), None);
    assert_eq!(micros("infinity"), None);
    assert_eq!(micros("0x10"), None);
    assert_eq!(micros("１"), None);
    assert_eq!(micros("1/2"), None);
}

#[test]
fn digits_after_the_sixth_place_round_the_number() {
    assert_eq!(micros("0.0000001"), Some(0));
    assert_eq!(micros("0.0000004"), Some(0));
    assert_eq!(micros("0.0000005"), Some(1));
    assert_eq!(micros("-0.0000005"), Some(-1));
    assert_eq!(micros("-0.0000004"), Some(0));
    assert_eq!(micros("0.1234567"), Some(123_457));
    assert_eq!(micros("0.1234564"), Some(123_456));
    assert_eq!(micros("0.12345649999"), Some(123_456));
    assert_eq!(micros("0.12345650000"), Some(123_457));
    assert_eq!(micros("1.0000000"), Some(1_000_000));
    assert_eq!(micros("0.9999995"), Some(1_000_000));
    assert_eq!(micros("-2.9999999"), Some(-3_000_000));
    assert_eq!(micros("3.14159265358979323846"), Some(3_141_593));
    assert_eq!(micros("0.3333333333"), Some(333_333));
    assert_eq!(micros("0.6666666666"), Some(666_667));
    assert_eq!(micros(".00000049"), Some(0));
    assert_eq!(micros("0.0000005x"), None);
    assert_eq!(micros("0.000000x"), None);
    assert_eq!(micros("0.00000000000000000000000000000000000000000a"), None);
    assert_eq!(micros("0.1234567.8"), None);
    assert_eq!(micros("99999999.9999995"), Some(100_000_000_000_000));
    assert_eq!(micros("100000000.0000004"), Some(100_000_000_000_000));
    assert_eq!(micros("100000000.0000005"), None);
}

#[test]
fn numbers_outside_the_limits_are_not_read() {
    assert_eq!(micros("100000000"), Some(100_000_000_000_000));
    assert_eq!(micros("-100000000"), Some(-100_000_000_000_000));
    assert_eq!(micros("100000000.0"), Some(100_000_000_000_000));
    assert_eq!(micros("100000000.000001"), None);
    assert_eq!(micros("-100000000.000001"), None);
    assert_eq!(micros("99999999.999999"), Some(99_999_999_999_999));
    assert_eq!(micros("100000001"), None);
    assert_eq!(micros("1000000000"), None);
    assert_eq!(micros("99999999999999999999999999999999999999999999"), None);
    assert_eq!(micros("18446744073709551616"), None);
    assert_eq!(micros("-9223372036854775808"), None);
}

#[test]
fn characters_are_told_apart() {
    assert_eq!(digit_of('0'), Some(0));
    assert_eq!(digit_of('5'), Some(5));
    assert_eq!(digit_of('9'), Some(9));
    assert_eq!(digit_of('/'), None);
    assert_eq!(digit_of(':'), None);
    assert_eq!(digit_of('a'), None);
    assert_eq!(digit_of('٣'), None);
    for c in ['\u{0}', 'a', '0', '.', '-', '\u{8}', '\u{e}', '\u{1f}', '\u{200b}', '\u{180e}', '\u{feff}', ' ', '\t', '\n', '\u{b}', '\u{c}', '\r', '\u{85}', '\u{a0}', '\u{1680}', '\u{2000}', '\u{2005}', '\u{200a}', '\u{2028}', '\u{2029}', '\u{202f}', '\u{205f}', '\u{3000}'] {
        assert_eq!(white_space(c), c.is_whitespace(), "{:?}", c);
    }
    assert_eq!(chars_of("a→b"), vec!['a', '→', 'b']);
    assert_eq!(chars_of(""), Vec::<char>::new());
}

#[test]
fn white_space_is_what_the_standard_library_calls_so() {
    let mut code: u32 = 0;
    while code <= 0x10ffff {
        if let Some(c) = char::from_u32(code) {
            assert_eq!(white_space(c), c.is_whitespace(), "{:?}", c);
        }
        code += 1;
    }
}
