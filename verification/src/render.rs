//! Fixed-point numbers written as text.
//!
//! A number is written with as many digits after the point as it needs and
//! no more: `2`, `1.5`, `-0.25`.  A number that is zero is written `0`.

use vstd::prelude::*;
use vstd::string::StringExecFns;
use crate::number::{Decimal, Hundredths};
use crate::text::{lemma_pow10_small, pow10};

verus! {

/// The character of the digit `d`.
pub open spec fn digit_char(d: int) -> char {
    if d == 0 {
        '0'
    } else if d == 1 {
        '1'
    } else if d == 2 {
        '2'
    } else if d == 3 {
        '3'
    } else if d == 4 {
        '4'
    } else if d == 5 {
        '5'
    } else if d == 6 {
        '6'
    } else if d == 7 {
        '7'
    } else if d == 8 {
        '8'
    } else {
        '9'
    }
}

/// The digits of the natural number `n`, without leading zeros.
pub open spec fn nat_text(n: nat) -> Seq<char>
    decreases n,
{
    if n < 10 {
        seq![digit_char(n as int)]
    } else {
        nat_text(n / 10).push(digit_char((n % 10) as int))
    }
}

/// The digits after the point of a number with `places` decimal places whose
/// fraction is `f` units of the last place, without trailing zeros.
pub open spec fn fraction_text(f: nat, places: nat) -> Seq<char>
    decreases places,
{
    if places == 0 || f == 0 {
        Seq::<char>::empty()
    } else {
        let unit = pow10((places - 1) as nat);
        seq![digit_char((f / unit) as int)] + fraction_text(f % unit, (places - 1) as nat)
    }
}

/// The sign that a number is written with: `-` before a negative number, `+`
/// before any other where `plus` asks for it.
pub open spec fn sign_text(count: int, plus: bool) -> Seq<char> {
    if count < 0 {
        seq!['-']
    } else if plus {
        seq!['+']
    } else {
        Seq::<char>::empty()
    }
}

/// The text of the number of `count` units of the `places`-th decimal place.
pub open spec fn fixed_text(count: int, places: nat, plus: bool) -> Seq<char> {
    let magnitude = if count < 0 {
        (-count) as nat
    } else {
        count as nat
    };
    let unit = pow10(places);
    let whole = nat_text(magnitude / unit);
    let fraction = magnitude % unit;
    if fraction == 0 {
        sign_text(count, plus) + whole
    } else {
        sign_text(count, plus) + whole + seq!['.'] + fraction_text(fraction, places)
    }
}

/// The digit `d` as text.
fn digit_str(d: u8) -> (s: &'static str)
    requires
        d <= 9,
    ensures
        s@ == seq![digit_char(d as int)],
{
    proof {
        reveal_strlit("0");
        reveal_strlit("1");
        reveal_strlit("2");
        reveal_strlit("3");
        reveal_strlit("4");
        reveal_strlit("5");
        reveal_strlit("6");
        reveal_strlit("7");
        reveal_strlit("8");
        reveal_strlit("9");
    }
    let s: &'static str = if d == 0 {
        "0"
    } else if d == 1 {
        "1"
    } else if d == 2 {
        "2"
    } else if d == 3 {
        "3"
    } else if d == 4 {
        "4"
    } else if d == 5 {
        "5"
    } else if d == 6 {
        "6"
    } else if d == 7 {
        "7"
    } else if d == 8 {
        "8"
    } else {
        "9"
    };
    assert(s@ =~= seq![digit_char(d as int)]);
    s
}

/// Appends the digits of `n` to `out`.
fn push_nat(out: &mut String, n: u128)
    ensures
        final(out)@ == old(out)@ + nat_text(n as nat),
    decreases n,
{
    if n >= 10 {
        push_nat(out, n / 10);
    }
    let d: u8 = (n % 10) as u8;
    out.append(digit_str(d));
    proof {
        if n >= 10 {
            assert(final(out)@ =~= old(out)@ + nat_text((n / 10) as nat).push(
                digit_char((n % 10) as int),
            ));
        } else {
            assert(final(out)@ =~= old(out)@ + seq![digit_char(n as int)]);
        }
    }
}

/// Appends to `out` the digits after the point for the fraction `f`.
fn push_fraction(out: &mut String, f: u128, places: u32)
    requires
        places <= 6,
        f < pow10(places as nat),
    ensures
        final(out)@ == old(out)@ + fraction_text(f as nat, places as nat),
    decreases places,
{
    if places == 0 || f == 0 {
        proof {
            assert(final(out)@ =~= old(out)@ + Seq::<char>::empty());
        }
        return ;
    }
    proof {
        lemma_pow10_small(places as nat);
        lemma_pow10_small((places - 1) as nat);
    }
    let unit: u128 = ten_to(places - 1);
    let d: u8 = (f / unit) as u8;
    proof {
        assert(f / unit <= 9) by (nonlinear_arith)
            requires
                f < 10 * unit,
                unit >= 1,
        ;
    }
    out.append(digit_str(d));
    push_fraction(out, f % unit, places - 1);
    proof {
        assert(final(out)@ =~= old(out)@ + (seq![digit_char((f / unit) as int)] + fraction_text(
            (f % unit) as nat,
            (places - 1) as nat,
        )));
    }
}

/// Ten to the power `n`, for `n` up to six.
fn ten_to(n: u32) -> (p: u128)
    requires
        n <= 6,
    ensures
        p == pow10(n as nat),
        1 <= p <= 1_000_000,
{
    let mut p: u128 = 1;
    let mut i: u32 = 0;
    proof {
        lemma_pow10_small(0);
    }
    while i < n
        invariant
            i <= n <= 6,
            p == pow10(i as nat),
            1 <= p <= 1_000_000,
        decreases n - i,
    {
        proof {
            lemma_pow10_small((i + 1) as nat);
        }
        p = p * 10;
        i += 1;
    }
    p
}

/// Appends to `out` the text of the number of `count` units of the
/// `places`-th decimal place.
pub fn push_fixed(out: &mut String, count: i128, places: u32, plus: bool)
    requires
        places <= 6,
    ensures
        final(out)@ == old(out)@ + fixed_text(count as int, places as nat, plus),
{
    let magnitude: u128 = if count < 0 {
        (-(count + 1)) as u128 + 1
    } else {
        count as u128
    };
    if count < 0 {
        out.append("-");
    } else if plus {
        out.append("+");
    }
    proof {
        reveal_strlit("-");
        reveal_strlit("+");
        assert(out@ =~= old(out)@ + sign_text(count as int, plus));
    }
    let unit: u128 = ten_to(places);
    push_nat(out, magnitude / unit);
    let fraction: u128 = magnitude % unit;
    if fraction != 0 {
        out.append(".");
        proof {
            reveal_strlit(".");
            assert(out@ =~= old(out)@ + sign_text(count as int, plus) + nat_text(
                (magnitude / unit) as nat,
            ) + seq!['.']);
        }
        push_fraction(out, fraction, places);
    }
}

/// The text of the number of `count` units of the `places`-th decimal place.
pub fn fixed_to_text(count: i128, places: u32, plus: bool) -> (s: String)
    requires
        places <= 6,
    ensures
        s@ == fixed_text(count as int, places as nat, plus),
{
    let mut s: String = String::new();
    push_fixed(&mut s, count, places, plus);
    proof {
        assert(s@ =~= fixed_text(count as int, places as nat, plus));
    }
    s
}

impl Hundredths {
    /// The number as text, with at most two digits after the point.
    pub fn to_text(&self) -> (s: String)
        ensures
            s@ == fixed_text(self.count as int, 2, false),
    {
        fixed_to_text(self.count, 2, false)
    }

    /// The number as text, with its sign written also where it is `+`.
    pub fn to_signed_text(&self) -> (s: String)
        ensures
            s@ == fixed_text(self.count as int, 2, true),
    {
        fixed_to_text(self.count, 2, true)
    }
}

impl Decimal {
    /// The number as text, with at most six digits after the point.
    pub fn to_text(&self) -> (s: String)
        ensures
            s@ == fixed_text(self.spec_micros() as int, 6, false),
    {
        fixed_to_text(self.micros as i128, 6, false)
    }

    /// The number as text, with its sign written also where it is `+`.
    pub fn to_signed_text(&self) -> (s: String)
        ensures
            s@ == fixed_text(self.spec_micros() as int, 6, true),
    {
        fixed_to_text(self.micros as i128, 6, true)
    }
}

} // verus!
