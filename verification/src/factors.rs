//! The factors and alphas this library ships.
use vstd::prelude::*;
use crate::alpha::{A, delay, is_period_returns, open, period_returns, rank, sum};
use crate::expr::Expr;

verus! {

/// Keeps the built-in factors linked into a binary that uses none of them by name.
pub fn ensure_linked() {
}

/// The bits of the float minus one.
pub const NEG_ONE_BITS: u64 = 0xbff0_0000_0000_0000u64;

/// Alpha 8: `-1 * rank(inner - delay(inner, 10))` with
/// `inner = sum(open, 5) * sum(returns, 5)`.
pub fn alpha8() -> (r: A)
    ensures
        r.spec_expr() matches Expr::Mul(c, ranked) && *c == Expr::Const(NEG_ONE_BITS) && (
        *ranked matches Expr::Rank(diff) && (*diff matches Expr::Sub(x, y) && (*y matches Expr::Delay(
            z,
            d,
        ) && d == 10 && *x == *z && (*x matches Expr::Mul(p, q) && (*p matches Expr::TsSum(o, w)
            && w == 5 && crate::alpha::is_field(*o, "open"@)) && (*q matches Expr::TsSum(rt, v) && v
            == 5 && is_period_returns(*rt)))))),
{
    let inner = sum(open(), 5).times(sum(period_returns(), 5));
    let lagged = delay(inner.clone(), 10);
    A::const_times(NEG_ONE_BITS, rank(inner.minus(lagged)))
}

} // verus!
