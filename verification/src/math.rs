//! Percentage arithmetic over 128-bit amounts, exact and free of overflow.
use vstd::prelude::*;

use crate::types::MAX_PERCENTAGE;

verus! {

/// `amount * pct / MAX_PERCENTAGE`, the truncating basis-point share.
pub open spec fn pct_of(amount: int, pct: int) -> int {
    amount * pct / (MAX_PERCENTAGE as int)
}

/// A basis-point share never exceeds the amount it is taken of.
pub proof fn lemma_pct_of_le(amount: int, pct: int)
    requires
        0 <= amount,
        0 <= pct < MAX_PERCENTAGE,
    ensures
        0 <= pct_of(amount, pct) <= amount,
{
    let b = MAX_PERCENTAGE as int;
    assert(0 <= amount * pct <= amount * b) by (nonlinear_arith)
        requires
            0 <= amount,
            0 <= pct,
            pct < b,
    ;
    assert(amount * pct / b <= amount * b / b) by (nonlinear_arith)
        requires
            0 < b,
            0 <= amount * pct <= amount * b,
    ;
    assert(amount * b / b == amount) by (nonlinear_arith)
        requires
            0 < b,
    ;
    assert(0 <= amount * pct / b) by (nonlinear_arith)
        requires
            0 < b,
            0 <= amount * pct,
    ;
}

/// Computes `amount * pct / MAX_PERCENTAGE` exactly, splitting the amount as
/// `q * MAX_PERCENTAGE + rem` so that no intermediate product overflows.
pub fn mul_div(amount: u128, pct: u64) -> (r: u128)
    requires
        pct < MAX_PERCENTAGE,
    ensures
        r == pct_of(amount as int, pct as int),
        r <= amount,
{
    let base: u128 = MAX_PERCENTAGE as u128;
    let q: u128 = amount / base;
    let rem: u128 = amount % base;
    proof {
        let a = amount as int;
        let b = base as int;
        let p = pct as int;
        let qi = q as int;
        let ri = rem as int;
        vstd::arithmetic::div_mod::lemma_fundamental_div_mod(a, b);
        assert(a == b * qi + ri);
        assert(qi * p + ri * p / b <= a && ri * p < b * b) by (nonlinear_arith)
            requires
                a == b * qi + ri,
                0 <= qi,
                0 <= ri < b,
                0 <= p < b,
        ;
    }
    let qp: u128 = q * (pct as u128);
    let rp: u128 = rem * (pct as u128);
    let r: u128 = qp + rp / base;
    proof {
        let a = amount as int;
        let b = base as int;
        let p = pct as int;
        let qi = q as int;
        let ri = rem as int;
        vstd::arithmetic::div_mod::lemma_fundamental_div_mod(ri * p, b);
        // a * p == (q * p + (rem * p) / base) * base + (rem * p) % base
        assert(a * p == (qi * p + ri * p / b) * b + ri * p % b) by (nonlinear_arith)
            requires
                a == b * qi + ri,
                ri * p == b * (ri * p / b) + ri * p % b,
        ;
        vstd::arithmetic::div_mod::lemma_fundamental_div_mod_converse_div(
            a * p,
            b,
            qi * p + ri * p / b,
            ri * p % b,
        );
        lemma_pct_of_le(a, p);
    }
    r
}

} // verus!
