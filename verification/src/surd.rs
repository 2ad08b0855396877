//! Numbers of the form `(num + √radicand) / den`.
//!
//! The roots of a quadratic with rational coefficients are of this form, and
//! so is everything that the plot derives from them.  A [`Surd`] holds the
//! three integers exactly; no square root is ever taken in floating point.

use vstd::prelude::*;
use vstd::arithmetic::div_mod::lemma_div_pos_is_pos;
use crate::algebra::{
    is_sqrt,
    lemma_div_cancel,
    lemma_round_half_away_odd,
    lemma_sqrt_unique,
    lemma_zero_factor,
    round2,
    round_half_away,
};
use crate::isqrt::{is_isqrt, isqrt, lemma_square_monotonic};
use crate::number::{Hundredths, Ratio};
use crate::reals::{
    lemma_cast_mul,
    lemma_round_by_division,
    lemma_scaled_order,
    lemma_square_order,
};

verus! {

/// The largest magnitude of the numerator and of the denominator of a [`Surd`].
pub const SURD_LIMIT: i128 = 100_000_000_000_000_000_000_000_000_000_000_000;

/// The largest radicand of a [`Surd`].
pub const RADICAND_LIMIT: u128 = 8_000_000_000_000_000_000_000_000_000_000_000;

/// The number `(num + √radicand) / den`, with `den` not zero.
#[derive(Clone, Copy, Debug)]
pub struct Surd {
    pub(crate) num: i128,
    pub(crate) radicand: u128,
    pub(crate) den: i128,
}

/// The integer `t` lies just below `200·s`, where `s` is the square root of `r`.
proof fn lemma_isqrt_brackets_root(s: real, r: int, t: int)
    requires
        is_sqrt(s, r as real),
        is_isqrt(t, 40000 * r),
    ensures
        t as real <= 200real * s,
        200real * s < (t + 1) as real,
        t * t == 40000 * r <==> t as real == 200real * s,
{
    let x = 200real * s;
    let tr = t as real;
    let ur = (t + 1) as real;
    assert(x * x == 40000real * (s * s)) by (nonlinear_arith)
        requires
            x == 200real * s,
    ;
    lemma_cast_mul(t, t);
    lemma_cast_mul(t + 1, t + 1);
    assert(tr * tr <= x * x);
    assert(x * x < ur * ur);
    lemma_square_order(tr, x);
    lemma_square_order(x, ur);
    if tr == x {
        assert(tr * tr == x * x);
    }
    if t * t == 40000 * r {
        assert(tr * tr == x * x);
        assert(x * x <= tr * tr);
        lemma_square_order(x, tr);
    }
}

/// `p + s` is non-negative exactly when `p` is, or `p²` does not exceed `r`,
/// and zero exactly when `p` is not positive and `p²` is `r`; `s` is the
/// square root of `r`.
proof fn lemma_sum_sign(p: int, s: real, r: int)
    requires
        is_sqrt(s, r as real),
    ensures
        p as real + s >= 0real <==> (p >= 0 || p * p <= r),
        p as real + s == 0real <==> (p <= 0 && p * p == r),
{
    let a = (-p) as real;
    lemma_cast_mul(-p, -p);
    assert((-p) * (-p) == p * p) by (nonlinear_arith);
    if p < 0 {
        lemma_square_order(a, s);
        lemma_square_order(s, a);
    }
    if p == 0 {
        lemma_square_order(0real, s);
        lemma_square_order(s, 0real);
    }
}

/// The integer square root of `40000·r` stays small while `r` is within its limit.
proof fn lemma_root_bound(r: int, t: int)
    requires
        0 <= r <= RADICAND_LIMIT,
        is_isqrt(t, 40000 * r),
    ensures
        0 <= t <= 18_000_000_000_000_000_000,
{
    if t > 18_000_000_000_000_000_000 {
        lemma_square_monotonic(18_000_000_000_000_000_001, t);
    }
}

/// The dividends of the rounding division are not negative: with `t` the
/// integer square root of `40000·r`, `200·p + t` is not negative where
/// `p + √r` is not, and `200·p + (t + 1)` is not positive where `p + √r` is
/// negative.
proof fn lemma_rounding_dividend(p: int, r: int, t: int)
    requires
        0 <= r,
        is_isqrt(t, 40000 * r),
    ensures
        (p >= 0 || p * p <= r) ==> 200 * p + t >= 0,
        !(p >= 0 || p * p <= r) ==> 200 * p + (t + 1) <= 0,
{
    let a = -(200 * p);
    assert(a * a == 40000 * (p * p)) by (nonlinear_arith)
        requires
            a == -(200 * p),
    ;
    if p < 0 && p * p <= r {
        if a >= t + 1 {
            lemma_square_monotonic(t + 1, a);
        }
    }
    if p < 0 && p * p > r {
        if a <= t {
            lemma_square_monotonic(a, t);
        }
    }
}

/// Rounds `z`, where `Q·z = p + s` with `Q` positive and `s` the square root
/// of `r`, from the integer square root `t` of `40000·r`.
proof fn lemma_round_surd(p: int, r: int, big_q: int, t: int, s: real, z: real) -> (k: int)
    requires
        big_q > 0,
        is_sqrt(s, r as real),
        is_isqrt(t, 40000 * r),
        big_q as real * z == p as real + s,
    ensures
        round_half_away(100real * z) == k,
        (p >= 0 || p * p <= r) ==> 200 * p + big_q + t >= 0 && k == (200 * p + big_q + t) / (2
            * big_q),
        !(p >= 0 || p * p <= r) ==> ({
            let u = if t * t == 40000 * r {
                t
            } else {
                t + 1
            };
            big_q - 200 * p - u >= 0 && k == -((big_q - 200 * p - u) / (2 * big_q))
        }),
{
    let qr = big_q as real;
    lemma_isqrt_brackets_root(s, r, t);
    lemma_sum_sign(p, s, r);
    lemma_scaled_order(qr, 0real, z);
    lemma_scaled_order(qr, z, 0real);
    assert(qr * 0real == 0real);
    if p >= 0 || p * p <= r {
        let y = 100real * z;
        let n = 200 * p + big_q + t;
        assert((2 * big_q) as real * (y + 1real / 2real) == 200real * (qr * z) + qr)
            by (nonlinear_arith)
            requires
                y == 100real * z,
                qr == big_q as real,
        ;
        let k = n / (2 * big_q);
        lemma_round_by_division(y, big_q, n, k);
        k
    } else {
        let y = -(100real * z);
        let u = if t * t == 40000 * r {
            t
        } else {
            t + 1
        };
        let n = big_q - 200 * p - u;
        assert((2 * big_q) as real * (y + 1real / 2real) == -(200real * (qr * z)) + qr)
            by (nonlinear_arith)
            requires
                y == -(100real * z),
                qr == big_q as real,
        ;
        let k = n / (2 * big_q);
        lemma_round_by_division(y, big_q, n, k);
        lemma_round_half_away_odd(y);
        -k
    }
}

/// A surd stands for at most one number.
pub proof fn lemma_denotes_unique(x: Surd, v1: real, v2: real)
    requires
        x.wf(),
        x.denotes(v1),
        x.denotes(v2),
    ensures
        v1 == v2,
{
    let d = x.den as real;
    let n = x.num as real;
    lemma_sqrt_unique(d * v1 - n, d * v2 - n, x.radicand as real);
    assert(d * (v1 - v2) == d * v1 - d * v2) by (nonlinear_arith);
    lemma_zero_factor(d, v1 - v2);
}

impl Surd {
    /// The denominator is not zero, and the three parts lie within their limits.
    #[verifier::type_invariant]
    pub open(crate) spec fn wf(self) -> bool {
        &&& -SURD_LIMIT <= self.num <= SURD_LIMIT
        &&& self.radicand <= RADICAND_LIMIT
        &&& -SURD_LIMIT <= self.den <= SURD_LIMIT
        &&& self.den != 0
    }

    /// The integer added to the square root.
    pub open(crate) spec fn spec_num(&self) -> i128 {
        self.num
    }

    /// The integer under the square root.
    pub open(crate) spec fn spec_radicand(&self) -> u128 {
        self.radicand
    }

    /// The divisor.
    pub open(crate) spec fn spec_den(&self) -> i128 {
        self.den
    }

    /// The surd stands for the real number `v`: `den·v − num` is the
    /// non-negative square root of `radicand`.  At most one `v` is so.
    pub open(crate) spec fn denotes(&self, v: real) -> bool {
        is_sqrt(self.den as real * v - self.num as real, self.radicand as real)
    }

    /// The surd `(num + √radicand) / den`, if `den` is not zero and the three
    /// parts lie within their limits.
    pub fn new(num: i128, radicand: u128, den: i128) -> (r: Option<Surd>)
        ensures
            r is Some <==> {
                &&& -SURD_LIMIT <= num <= SURD_LIMIT
                &&& radicand <= RADICAND_LIMIT
                &&& -SURD_LIMIT <= den <= SURD_LIMIT
                &&& den != 0
            },
            r matches Some(x) ==> {
                &&& x.spec_num() == num
                &&& x.spec_radicand() == radicand
                &&& x.spec_den() == den
                &&& forall|v: real| #[trigger]
                    x.denotes(v) <==> is_sqrt(den as real * v - num as real, radicand as real)
            },
    {
        if -SURD_LIMIT <= num && num <= SURD_LIMIT && radicand <= RADICAND_LIMIT && -SURD_LIMIT
            <= den && den <= SURD_LIMIT && den != 0 {
            Some(Surd { num, radicand, den })
        } else {
            None
        }
    }

    /// The rational number `q` as a surd, with nothing under the square root.
    pub fn from_ratio(q: &Ratio) -> (x: Surd)
        ensures
            x.denotes(q@),
            x.spec_radicand() == 0,
            x.spec_num() == q.spec_num(),
            x.spec_den() == q.spec_den(),
    {
        proof {
            use_type_invariant(q);
            lemma_div_cancel(q.num as real, q.den as real);
            let s = q.den as real * q@ - q.num as real;
            assert(s * s == 0real) by (nonlinear_arith)
                requires
                    s == 0real,
            ;
        }
        Surd { num: q.num, radicand: 0, den: q.den }
    }

    /// The integer added to the square root.
    #[verifier::when_used_as_spec(spec_num)]
    pub fn num(&self) -> (n: i128)
        ensures
            n == self.spec_num(),
    {
        self.num
    }

    /// The integer under the square root.
    #[verifier::when_used_as_spec(spec_radicand)]
    pub fn radicand(&self) -> (r: u128)
        ensures
            r == self.spec_radicand(),
    {
        self.radicand
    }

    /// The divisor, which is not zero.
    #[verifier::when_used_as_spec(spec_den)]
    pub fn den(&self) -> (d: i128)
        ensures
            d == self.spec_den(),
            d != 0,
    {
        proof {
            use_type_invariant(self);
        }
        self.den
    }

    /// Whether `num + √radicand` is negative.
    fn numerator_is_negative(&self) -> (neg: bool)
        ensures
            neg <==> !(self.num >= 0 || self.num * self.num <= self.radicand),
    {
        proof {
            use_type_invariant(self);
        }
        if self.num >= 0 {
            false
        } else {
            let a: i128 = -self.num;
            if a > 100_000_000_000_000_000 {
                assert(a * a > RADICAND_LIMIT) by (nonlinear_arith)
                    requires
                        a > 100_000_000_000_000_000,
                ;
                assert(self.num * self.num == a * a) by (nonlinear_arith)
                    requires
                        a == -self.num,
                ;
                true
            } else {
                assert(a * a <= 100_000_000_000_000_000 * 100_000_000_000_000_000)
                    by (nonlinear_arith)
                    requires
                        0 <= a <= 100_000_000_000_000_000,
                ;
                assert(self.num * self.num == a * a) by (nonlinear_arith)
                    requires
                        a == -self.num,
                ;
                let square: u128 = (a * a) as u128;
                square > self.radicand
            }
        }
    }

    /// Whether the value is zero.
    pub fn is_zero(&self) -> (z: bool)
        ensures
            forall|v: real| #[trigger] self.denotes(v) ==> (z <==> v == 0real),
    {
        proof {
            use_type_invariant(self);
        }
        let neg: bool = self.numerator_is_negative();
        let z: bool = if self.num > 0 || neg {
            false
        } else {
            let a: i128 = -self.num;
            assert(self.num == 0 ==> self.num * self.num == 0) by (nonlinear_arith);
            assert(a * a <= self.radicand) by (nonlinear_arith)
                requires
                    self.num * self.num <= self.radicand,
                    a == -self.num,
            ;
            let square: u128 = (a * a) as u128;
            assert(square == self.num * self.num) by (nonlinear_arith)
                requires
                    square == a * a,
                    a == -self.num,
            ;
            square == self.radicand
        };
        proof {
            assert forall|v: real| #[trigger] self.denotes(v) implies (z <==> v == 0real) by {
                let s = self.den as real * v - self.num as real;
                lemma_sum_sign(self.num as int, s, self.radicand as int);
                let d = self.den as real;
                assert(d * v == 0real <==> v == 0real) by (nonlinear_arith)
                    requires
                        d != 0real,
                ;
            }
        }
        z
    }

    /// The value rounded to two decimal places, half-way cases away from zero.
    pub fn round2(&self) -> (h: Hundredths)
        ensures
            forall|v: real| #[trigger]
                self.denotes(v) ==> h@ == round2(v) && h.count == round_half_away(100real * v),
            -i128::MAX <= h.count,
    {
        proof {
            use_type_invariant(self);
        }
        let p: i128 = self.num;
        let big_q: i128 = if self.den > 0 {
            self.den
        } else {
            -self.den
        };
        let t: u128 = isqrt(40000 * self.radicand);
        let neg: bool = self.numerator_is_negative();
        proof {
            lemma_root_bound(self.radicand as int, t as int);
            lemma_rounding_dividend(p as int, self.radicand as int, t as int);
        }
        let root: i128 = t as i128;
        let k: i128 = if !neg {
            (200 * p + big_q + root) / (2 * big_q)
        } else if t * t == 40000 * self.radicand {
            (big_q - 200 * p - root) / (2 * big_q)
        } else {
            (big_q - 200 * p - (root + 1)) / (2 * big_q)
        };
        proof {
            lemma_div_pos_is_pos(
                if !neg {
                    200 * p + big_q + root
                } else if t * t == 40000 * self.radicand {
                    big_q - 200 * p - root
                } else {
                    big_q - 200 * p - (root + 1)
                },
                2 * big_q,
            );
        }
        let count: i128 = if (self.den > 0) == !neg {
            k
        } else {
            -k
        };
        proof {
            assert forall|v: real| #[trigger] self.denotes(v) implies count == round_half_away(
                100real * v,
            ) by {
                let s = self.den as real * v - p as real;
                let z = if self.den > 0 {
                    v
                } else {
                    -v
                };
                let d = self.den as real;
                assert((-d) * (-v) == d * v) by (nonlinear_arith);
                let _ = lemma_round_surd(
                    p as int,
                    self.radicand as int,
                    big_q as int,
                    t as int,
                    s,
                    z,
                );
                if self.den < 0 {
                    lemma_round_half_away_odd(100real * z);
                    assert(100real * v == -(100real * z));
                }
            }
        }
        Hundredths { count }
    }
}

} // verus!
