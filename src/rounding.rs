//! Rounding of amounts to a fixed number of fractional digits, done by
//! rust_decimal.

use crate::amount::{pow10, Amount, MAX_SCALE};
use vstd::prelude::*;

verus! {

/// Rounds `n / d` to the nearest integer, ties to the even neighbour.
pub open spec fn round_half_even(n: nat, d: nat) -> nat
    recommends
        d > 0,
{
    let q = n / d;
    let r = n % d;
    if 2 * r > d || (2 * r == d && q % 2 == 1) {
        q + 1
    } else {
        q
    }
}

/// `a` rounded to `dp` fractional digits, half to even on the magnitude;
/// left as it is when it has no more than `dp` of them.
pub open spec fn rounded(a: Amount, dp: u32) -> Amount {
    if a.scale <= dp {
        a
    } else {
        let n = if a.mantissa < 0 {
            -a.mantissa
        } else {
            a.mantissa as int
        };
        let q = round_half_even(n as nat, pow10((a.scale - dp) as nat) as nat);
        Amount { mantissa: (if a.mantissa < 0 { -q } else { q as int }) as i128, scale: dp }
    }
}

/// Relies on rust_decimal's `Decimal::from_i128_with_scale`, which panics only
/// outside the range that `wf` admits, and on `Decimal::round_dp`, which
/// divides the magnitude by `10^(scale - dp)` and rounds half to even, or
/// returns the value unchanged when its scale is at most `dp`.
#[verifier::external_body]
pub(crate) fn round_dp(a: Amount, dp: u32) -> (r: Amount)
    requires
        a.wf(),
        dp <= MAX_SCALE,
    ensures
        r == rounded(a, dp),
{
    let d = rust_decimal::Decimal::from_i128_with_scale(a.mantissa, a.scale).round_dp(dp);
    Amount { mantissa: d.mantissa(), scale: d.scale() }
}

} // verus!
