//! The exact numbers that the solver computes with.
//!
//! A coefficient is a [`Decimal`]: a fixed-point number with six decimal
//! places.  What is derived from coefficients by the four operations is a
//! [`Ratio`] of two integers.  A value shown to a reader is a count of
//! [`Hundredths`].  Each of them stands for a real number, its view.

use vstd::prelude::*;
use crate::algebra::{lemma_div_cancel, lemma_round_half_away_odd, round2, round_half_away};
use crate::reals::{lemma_div_neg, lemma_div_sign, lemma_round_by_division};

verus! {

/// How many millionths make one.
pub const MICROS_PER_UNIT: i64 = 1_000_000;

/// The largest magnitude of a coefficient, in millionths: a coefficient lies
/// between minus and plus one hundred million.
pub const MICROS_LIMIT: i64 = 100_000_000_000_000;

/// The largest magnitude of the numerator, and the largest denominator, of a
/// [`Ratio`].
pub const RATIO_LIMIT: i128 = 100_000_000_000_000_000_000_000_000_000_000_000;

/// A fixed-point number with six decimal places, held as a count of millionths.
#[derive(Clone, Copy, Debug)]
pub struct Decimal {
    pub(crate) micros: i64,
}

impl View for Decimal {
    type V = real;

    /// The real number that the value stands for.
    open(crate) spec fn view(&self) -> real {
        self.micros as real / 1_000_000real
    }
}

impl Decimal {
    /// The count of millionths lies within the limit.
    #[verifier::type_invariant]
    pub open(crate) spec fn wf(self) -> bool {
        -MICROS_LIMIT <= self.micros <= MICROS_LIMIT
    }

    /// The count of millionths.
    pub open(crate) spec fn spec_micros(&self) -> i64 {
        self.micros
    }

    /// The decimal of `micros` millionths, if that lies within the limit.
    pub fn from_micros(micros: i64) -> (r: Option<Decimal>)
        ensures
            r is Some <==> -MICROS_LIMIT <= micros <= MICROS_LIMIT,
            r matches Some(d) ==> d.spec_micros() == micros && d@ == micros as real
                / 1_000_000real,
    {
        if -MICROS_LIMIT <= micros && micros <= MICROS_LIMIT {
            Some(Decimal { micros })
        } else {
            None
        }
    }

    /// The decimal that equals the integer `n`, if that lies within the limit.
    pub fn from_int(n: i32) -> (r: Option<Decimal>)
        ensures
            r is Some <==> -100_000_000 <= n <= 100_000_000,
            r matches Some(d) ==> d.spec_micros() == n * 1_000_000 && d@ == n as real,
    {
        if -100_000_000 <= n && n <= 100_000_000 {
            let wide: i64 = n as i64;
            Some(Decimal { micros: wide * MICROS_PER_UNIT })
        } else {
            None
        }
    }

    /// The count of millionths.
    #[verifier::when_used_as_spec(spec_micros)]
    pub fn micros(&self) -> (m: i64)
        ensures
            m == self.spec_micros(),
            -MICROS_LIMIT <= m <= MICROS_LIMIT,
            self@ == m as real / 1_000_000real,
    {
        proof {
            use_type_invariant(self);
        }
        self.micros
    }

    /// Whether the value is zero.
    pub fn is_zero(&self) -> (z: bool)
        ensures
            z <==> self@ == 0real,
    {
        self.micros == 0
    }
}

/// A number with two decimal places, held as a count of hundredths.
#[derive(Clone, Copy, Debug, PartialEq, Eq, Structural)]
pub struct Hundredths {
    pub count: i128,
}

impl View for Hundredths {
    type V = real;

    /// The real number that the value stands for.
    open spec fn view(&self) -> real {
        self.count as real / 100real
    }
}

/// The quotient of two integers, the second of them positive.
#[derive(Clone, Copy, Debug)]
pub struct Ratio {
    pub(crate) num: i128,
    pub(crate) den: i128,
}

impl View for Ratio {
    type V = real;

    /// The real number that the value stands for.
    open(crate) spec fn view(&self) -> real {
        self.num as real / self.den as real
    }
}

impl Ratio {
    /// The denominator is positive, and both parts lie within the limit.
    #[verifier::type_invariant]
    pub open(crate) spec fn wf(self) -> bool {
        &&& -RATIO_LIMIT <= self.num <= RATIO_LIMIT
        &&& 0 < self.den <= RATIO_LIMIT
    }

    /// The numerator.
    pub open(crate) spec fn spec_num(&self) -> i128 {
        self.num
    }

    /// The denominator.
    pub open(crate) spec fn spec_den(&self) -> i128 {
        self.den
    }

    /// The quotient `num / den`, if `den` is positive and both lie within the limit.
    pub fn new(num: i128, den: i128) -> (r: Option<Ratio>)
        ensures
            r is Some <==> -RATIO_LIMIT <= num <= RATIO_LIMIT && 0 < den <= RATIO_LIMIT,
            r matches Some(q) ==> q.spec_num() == num && q.spec_den() == den && q@ == num as real
                / den as real,
    {
        if -RATIO_LIMIT <= num && num <= RATIO_LIMIT && 0 < den && den <= RATIO_LIMIT {
            Some(Ratio { num, den })
        } else {
            None
        }
    }

    /// The numerator.
    #[verifier::when_used_as_spec(spec_num)]
    pub fn num(&self) -> (n: i128)
        ensures
            n == self.spec_num(),
    {
        self.num
    }

    /// The denominator, which is positive.
    #[verifier::when_used_as_spec(spec_den)]
    pub fn den(&self) -> (d: i128)
        ensures
            d == self.spec_den(),
            d > 0,
            self@ == self.spec_num() as real / d as real,
    {
        proof {
            use_type_invariant(self);
        }
        self.den
    }

    /// Whether the value is zero.
    pub fn is_zero(&self) -> (z: bool)
        ensures
            z <==> self@ == 0real,
    {
        proof {
            use_type_invariant(self);
            lemma_div_sign(self.num as real, self.den as real);
        }
        self.num == 0
    }

    /// The value rounded to two decimal places, half-way cases away from zero.
    pub fn round2(&self) -> (h: Hundredths)
        ensures
            h@ == round2(self@),
            h.count == round_half_away(100real * self@),
    {
        proof {
            use_type_invariant(self);
        }
        let d: i128 = self.den;
        let m: i128 = if self.num >= 0 {
            self.num
        } else {
            -self.num
        };
        let n: i128 = 200 * m + d;
        let k: i128 = n / (2 * d);
        proof {
            let y = 100real * (m as real / d as real);
            lemma_div_cancel(m as real, d as real);
            lemma_div_sign(m as real, d as real);
            assert((2 * d) as real * (y + 1real / 2real) == 200real * (d as real * (m as real
                / d as real)) + d as real) by (nonlinear_arith)
                requires
                    y == 100real * (m as real / d as real),
            ;
            lemma_round_by_division(y, d as int, n as int, k as int);
            if self.num < 0 {
                lemma_div_neg(m as real, d as real);
                lemma_round_half_away_odd(y);
                assert(100real * self@ == -y);
            }
        }
        if self.num >= 0 {
            Hundredths { count: k }
        } else {
            Hundredths { count: -k }
        }
    }
}

} // verus!
