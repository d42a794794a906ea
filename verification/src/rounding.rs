//! Division that rounds to the nearest integer.

use vstd::arithmetic::div_mod::{lemma_fundamental_div_mod, lemma_mod_bound};
use vstd::prelude::*;

verus! {

/// `n / d` rounded to the nearest integer, a tie going away from zero.
pub open spec fn round_div(n: int, d: int) -> int
    recommends
        d > 0,
{
    if n >= 0 {
        (2 * n + d) / (2 * d)
    } else {
        -((2 * (-n) + d) / (2 * d))
    }
}

/// A quotient lies between two integers that bracket the dividend.
pub proof fn lemma_div_between(x: int, m: int, lo: int, hi: int)
    requires
        m > 0,
        lo * m <= x,
        x < (hi + 1) * m,
    ensures
        lo <= x / m <= hi,
{
    lemma_fundamental_div_mod(x, m);
    let q = x / m;
    let r = x % m;
    assert(0 <= r < m) by {
        lemma_mod_bound(x, m);
    }
    assert(q >= lo) by (nonlinear_arith)
        requires
            m > 0,
            lo * m <= x,
            x == m * q + r,
            r < m,
    ;
    assert(q <= hi) by (nonlinear_arith)
        requires
            m > 0,
            x < (hi + 1) * m,
            x == m * q + r,
            0 <= r,
    ;
}

/// Rounding keeps a quotient between two integers that bracket it.
pub proof fn lemma_round_div_between(n: int, d: int, lo: int, hi: int)
    requires
        d > 0,
        lo * d <= n <= hi * d,
    ensures
        lo <= round_div(n, d) <= hi,
{
    if n >= 0 {
        assert(lo * (2 * d) <= 2 * n + d) by (nonlinear_arith)
            requires
                d > 0,
                lo * d <= n,
        ;
        assert(2 * n + d < (hi + 1) * (2 * d)) by (nonlinear_arith)
            requires
                d > 0,
                n <= hi * d,
        ;
        lemma_div_between(2 * n + d, 2 * d, lo, hi);
    } else {
        assert((-hi) * (2 * d) <= 2 * (-n) + d) by (nonlinear_arith)
            requires
                d > 0,
                n <= hi * d,
        ;
        assert(2 * (-n) + d < (-lo + 1) * (2 * d)) by (nonlinear_arith)
            requires
                d > 0,
                lo * d <= n,
        ;
        lemma_div_between(2 * (-n) + d, 2 * d, -hi, -lo);
    }
}

} // verus!
