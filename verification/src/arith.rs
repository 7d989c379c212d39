//! Facts about flooring integer division used by the pool arithmetic.

use vstd::prelude::*;

verus! {

use vstd::arithmetic::div_mod::lemma_fundamental_div_mod;
use vstd::arithmetic::div_mod::lemma_mod_division_less_than_divisor;

/// The quotient `a / d` rounds down: `d * (a / d)` is at most `a`, and
/// adding one more `d` overshoots.
pub proof fn lemma_div_bounds(a: int, d: int)
    requires
        0 <= a,
        0 < d,
    ensures
        d * (a / d) <= a,
        a < d * (a / d) + d,
        0 <= a / d,
{
    lemma_fundamental_div_mod(a, d);
    lemma_mod_division_less_than_divisor(a, d);
    vstd::arithmetic::div_mod::lemma_div_pos_is_pos(a, d);
}

/// A numerator no greater than `b * d` divides by `d` to at most `b`.
pub proof fn lemma_div_le(a: int, d: int, b: int)
    requires
        0 <= a,
        0 < d,
        a <= b * d,
    ensures
        a / d <= b,
{
    lemma_div_bounds(a, d);
    let q: int = a / d;
    assert(q <= b) by (nonlinear_arith)
        requires
            0 < d,
            d * q <= a,
            a <= b * d,
    ;
}

/// A numerator strictly below `b * d` divides by `d` to strictly below `b`.
pub proof fn lemma_div_lt(a: int, d: int, b: int)
    requires
        0 <= a,
        0 < d,
        a < b * d,
    ensures
        a / d < b,
{
    lemma_div_bounds(a, d);
    let q: int = a / d;
    assert(q < b) by (nonlinear_arith)
        requires
            0 < d,
            d * q <= a,
            a < b * d,
    ;
}

/// An exact multiple of the divisor divides back to the multiplier.
pub proof fn lemma_div_exact(b: int, d: int)
    requires
        0 <= b,
        0 < d,
    ensures
        (b * d) / d == b,
{
    vstd::arithmetic::div_mod::lemma_div_multiples_vanish(b, d);
    assert(b * d == d * b) by (nonlinear_arith);
}

} // verus!
