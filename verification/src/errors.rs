//! Error taxonomy of the accounting core.
//!
//! Every operation rejects before any state change: an error result always
//! leaves the engine exactly as it was.

use vstd::prelude::*;

verus! {

/// Why an operation was rejected.  Each variant corresponds to one checked
/// precondition; arithmetic overflow is fatal for the call and surfaces as
/// [`CdpError::Overflow`].
#[derive(Clone, Copy, Debug, PartialEq, Eq, Structural)]
pub enum CdpError {
    /// A zero amount where a positive one is required.
    InvalidAmount,
    /// Minimum collateral ratio below the 1100 bps floor.
    McrTooLow,
    /// Recovery ratio below the minimum collateral ratio.
    RecoveryBelowMcr,
    /// Price decimals above 18.
    InvalidDecimals,
    /// A zero price.
    InvalidPrice,
    /// Caller is not allowed to perform the action.
    Unauthorized,
    /// The collateral asset has no registered configuration.
    NotSupported,
    /// No price feed for the collateral asset.
    PriceNotAvailable,
    /// The addressed trove does not exist.
    TroveNotFound,
    /// The asset's total debt would exceed its debt ceiling.
    CeilingExceeded,
    /// Borrow or withdraw would leave the trove below its minimum ratio.
    BelowMcr,
    /// Withdraw request exceeds the trove's collateral.
    NotEnoughCollateral,
    /// Close requested while debt is outstanding.
    OutstandingDebt,
    /// Close requested on a trove with no collateral.
    NoCollateral,
    /// Repay request exceeds the trove's debt.
    RepayExceedsDebt,
    /// Pool deposit too small to mint a single share.
    DepositTooSmall,
    /// Pool withdrawal too small to burn a single share.
    WithdrawTooSmall,
    /// Pool withdrawal with no shares held.
    NothingDeposited,
    /// Pool withdrawal while the held shares are worth nothing.
    PoolDepleted,
    /// Pool withdrawal request exceeds the deposit's value.
    InsufficientBalance,
    /// Claim with no claimable balance.
    NothingToClaim,
    /// Claim request exceeds the claimable balance.
    ExceedsClaimable,
    /// Redemption request exceeds the trove's debt.
    RedeemExceedsDebt,
    /// Redemption amount converts to zero collateral.
    RedeemTooSmall,
    /// Redemption seizes more collateral than the trove holds.
    RedeemExceedsCollateral,
    /// Liquidation while the pool cannot cover the trove's debt.
    InsufficientPoolFunds,
    /// Total-debt decrease below zero.
    DebtUnderflow,
    /// Liquidation batch with no owners.
    OwnersRequired,
    /// A checked multiplication or addition overflowed.
    Overflow,
}

} // verus!
