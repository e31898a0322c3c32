//! Pricing and ratio evaluator: pure arithmetic turning (collateral amount,
//! debt amount, price) into a basis-point collateralization ratio.
//!
//! All multiplications are checked; overflow is reported, never wrapped.

use vstd::prelude::*;

use crate::errors::CdpError;

verus! {

/// Basis-point denominator: 10000 bps = 100%.
pub const BPS_DENOMINATOR: u128 = 10_000;

/// Fixed-point scale (10^24) of the reward-per-share accumulator.
pub const REWARD_SCALE: u128 = 1_000_000_000_000_000_000_000_000;

/// 10^n as a mathematical integer.
pub open spec fn pow10(n: nat) -> nat
    decreases n,
{
    if n == 0 {
        1
    } else {
        10 * pow10((n - 1) as nat)
    }
}

pub proof fn lemma_pow10_positive(n: nat)
    ensures
        pow10(n) >= 1,
    decreases n,
{
    if n > 0 {
        lemma_pow10_positive((n - 1) as nat);
    }
}

pub proof fn lemma_pow10_increases(n: nat, m: nat)
    requires
        n <= m,
    ensures
        pow10(n) <= pow10(m),
    decreases m,
{
    if n < m {
        lemma_pow10_increases(n, (m - 1) as nat);
        lemma_pow10_positive((m - 1) as nat);
    }
}

/// 10^decimals, the divisor that converts a price into whole units.
pub fn decimals_factor(decimals: u8) -> (r: u128)
    requires
        decimals <= 18,
    ensures
        r == pow10(decimals as nat),
        r >= 1,
{
    proof {
        lemma_pow10_increases(decimals as nat, 18);
        reveal_with_fuel(pow10, 19);
        assert(pow10(18) == 1_000_000_000_000_000_000);
    }
    let mut factor: u128 = 1;
    let mut i: u8 = 0;
    while i < decimals
        invariant
            i <= decimals,
            decimals <= 18,
            factor == pow10(i as nat),
            pow10(decimals as nat) <= pow10(18),
            pow10(18) == 1_000_000_000_000_000_000,
        decreases decimals - i,
    {
        proof {
            lemma_pow10_increases((i + 1) as nat, decimals as nat);
        }
        factor = factor * 10;
        i = i + 1;
    }
    proof {
        lemma_pow10_positive(decimals as nat);
    }
    factor
}

/// The collateralization ratio in basis points, as a mathematical integer.
/// A trove with no debt is always safe: its ratio is the maximum
/// representable value.
pub open spec fn ratio_spec(collateral: u128, debt: u128, price: u128, decimals: u8) -> int {
    if debt == 0 {
        u128::MAX as int
    } else {
        ((collateral * price) / (pow10(decimals as nat) as int)) * (BPS_DENOMINATOR as int) / (debt as int)
    }
}

/// Whether evaluating the ratio overflows 128-bit arithmetic.
pub open spec fn ratio_overflows(collateral: u128, debt: u128, price: u128, decimals: u8) -> bool {
    debt != 0 && {
        ||| collateral * price > u128::MAX
        ||| ((collateral * price) / (pow10(decimals as nat) as int)) * (BPS_DENOMINATOR as int)
            > u128::MAX
    }
}

/// Evaluates the collateralization ratio in basis points:
/// `value = collateral * price / 10^decimals`, `ratio = value * 10000 / debt`,
/// both divisions truncating.  Fails loudly on overflow.
pub fn collateral_ratio(collateral: u128, debt: u128, price: u128, decimals: u8) -> (r: Result<
    u128,
    CdpError,
>)
    requires
        decimals <= 18,
    ensures
        match r {
            Ok(v) => !ratio_overflows(collateral, debt, price, decimals) && v == ratio_spec(
                collateral,
                debt,
                price,
                decimals,
            ),
            Err(e) => ratio_overflows(collateral, debt, price, decimals) && e
                == CdpError::Overflow,
        },
{
    if debt == 0 {
        return Ok(u128::MAX);
    }
    let divisor = decimals_factor(decimals);
    match collateral.checked_mul(price) {
        None => Err(CdpError::Overflow),
        Some(scaled_value) => {
            let value = scaled_value / divisor;
            match value.checked_mul(BPS_DENOMINATOR) {
                None => Err(CdpError::Overflow),
                Some(scaled_ratio) => Ok(scaled_ratio / debt),
            }
        },
    }
}

} // verus!
