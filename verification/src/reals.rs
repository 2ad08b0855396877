//! Facts about real numbers, and about integers seen as reals, that the
//! proofs of the exact arithmetic rest on.

use vstd::prelude::*;
use vstd::arithmetic::div_mod::{lemma_fundamental_div_mod, lemma_mod_bound};
use crate::algebra::{lemma_div_cancel, lemma_quotient_unique, lemma_round_half_away_is, round_half_away};

verus! {

/// The product of two integers, seen as a real, is the product of the reals.
pub proof fn lemma_cast_mul(x: int, y: int)
    ensures
        (x * y) as real == (x as real) * (y as real),
{
    assert((x * y) as real == (x as real) * (y as real)) by (nonlinear_arith);
}

/// Multiplying both sides by a positive factor keeps the order.
pub proof fn lemma_scaled_order(k: real, x: real, y: real)
    requires
        k > 0real,
    ensures
        k * x <= k * y <==> x <= y,
        k * x < k * y <==> x < y,
{
    assert((k * x <= k * y <==> x <= y) && (k * x < k * y <==> x < y)) by (nonlinear_arith)
        requires
            k > 0real,
    ;
}

/// Squaring keeps the order of non-negative reals.
pub proof fn lemma_square_order(x: real, y: real)
    requires
        x >= 0real,
        y >= 0real,
    ensures
        x * x <= y * y <==> x <= y,
        x * x < y * y <==> x < y,
{
    assert((x * x <= y * y <==> x <= y) && (x * x < y * y <==> x < y)) by (nonlinear_arith)
        requires
            x >= 0real,
            y >= 0real,
    ;
}

/// A sign moves freely between a quotient, its dividend and its divisor.
pub proof fn lemma_div_neg(n: real, d: real)
    requires
        d != 0real,
    ensures
        (-n) / d == -(n / d),
        n / (-d) == -(n / d),
        (-n) / (-d) == n / d,
{
    lemma_div_cancel(n, d);
    let q = n / d;
    assert(d * (-q) == -(d * q)) by (nonlinear_arith);
    assert((-d) * (-q) == d * q) by (nonlinear_arith);
    assert((-d) * q == -(d * q)) by (nonlinear_arith);
    lemma_quotient_unique(-n, d, -q);
    lemma_quotient_unique(n, -d, -q);
    lemma_quotient_unique(-n, -d, q);
}

/// A quotient by a positive divisor has the sign of its dividend.
pub proof fn lemma_div_sign(n: real, d: real)
    requires
        d > 0real,
    ensures
        n / d == 0real <==> n == 0real,
        n / d > 0real <==> n > 0real,
        n / d < 0real <==> n < 0real,
{
    lemma_div_cancel(n, d);
    let q = n / d;
    assert((d * q == 0real <==> q == 0real) && (d * q > 0real <==> q > 0real) && (d * q < 0real
        <==> q < 0real)) by (nonlinear_arith)
        requires
            d > 0real,
    ;
}

/// Rounding a non-negative real `y` by integer division.  Where the integer
/// `n` is the floor of `2d·(y + ½)`, the quotient `n / (2d)` is `y` rounded.
pub proof fn lemma_round_by_division(y: real, d: int, n: int, k: int)
    requires
        y >= 0real,
        d > 0,
        n as real <= (2 * d) as real * (y + 1real / 2real),
        (2 * d) as real * (y + 1real / 2real) < (n + 1) as real,
        k == n / (2 * d),
    ensures
        round_half_away(y) == k,
{
    let d2 = 2 * d;
    lemma_fundamental_div_mod(n, d2);
    lemma_mod_bound(n, d2);
    assert(d2 * (k + 1) == d2 * k + d2) by (nonlinear_arith);
    assert(d2 * k <= n);
    assert(n + 1 <= d2 * (k + 1));
    lemma_cast_mul(d2, k);
    lemma_cast_mul(d2, k + 1);
    let dr = d2 as real;
    let z = y + 1real / 2real;
    assert(dr * (k as real) <= dr * z);
    assert(dr * z < dr * ((k + 1) as real));
    lemma_scaled_order(dr, k as real, z);
    lemma_scaled_order(dr, z, (k + 1) as real);
    lemma_round_half_away_is(y, k);
}

} // verus!
