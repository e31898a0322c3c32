//! Data model of the accounting core.
//!
//! Accounts, collateral assets and oracle feed identifiers are plain `u64`
//! identifiers; amounts are unsigned 128-bit.  The shell that speaks to the
//! outside world maps its richer identifier types onto these.

use vstd::prelude::*;

verus! {

/// An account identifier.
pub type AccountId = u64;

/// A collateral token identifier.
pub type TokenId = AccountId;

/// An amount of tokens.
pub type Balance = u128;

/// Which stability pool absorbs liquidations of an asset.
#[derive(Clone, Copy, Debug, PartialEq, Eq, Structural)]
pub enum StabilityPoolMode {
    Dedicated,
    Shared,
}

impl Default for StabilityPoolMode {
    fn default() -> (r: Self)
        ensures
            r == StabilityPoolMode::Dedicated,
    {
        StabilityPoolMode::Dedicated
    }
}

/// Per-asset risk parameters, immutable except by the administrator.
#[derive(Clone, Copy, Debug, PartialEq, Eq, Structural)]
pub struct CollateralConfig {
    pub oracle_price_id: u64,
    pub min_collateral_ratio_bps: u16,
    pub recovery_collateral_ratio_bps: u16,
    pub debt_ceiling: Balance,
    pub liquidation_penalty_bps: u16,
    pub stability_pool_mode: StabilityPoolMode,
}

/// The latest oracle price of an asset, overwritten wholesale on each
/// submission.
#[derive(Clone, Copy, Debug, PartialEq, Eq, Structural)]
pub struct PriceFeed {
    pub price: Balance,
    pub decimals: u8,
    pub last_update_timestamp: u64,
}

/// A single borrower's position for one collateral asset.  The owner and
/// asset are the key under which the trove is stored.
#[derive(Clone, Copy, Debug, PartialEq, Eq, Structural)]
pub struct Trove {
    pub collateral_amount: Balance,
    pub debt_amount: Balance,
    pub last_update_timestamp: u64,
}

/// A stability-pool deposit: proportional ownership via shares, tagged with
/// the pool generation it belongs to.  The per-asset reward-debt snapshots
/// are kept beside the pool state, keyed by (account, asset).
#[derive(Clone, Copy, Debug, PartialEq, Eq, Structural)]
pub struct StabilityDeposit {
    pub shares: Balance,
    pub epoch: u64,
}

impl StabilityDeposit {
    /// A fresh, empty deposit in the given pool generation.
    pub fn new(epoch: u64) -> (r: Self)
        ensures
            r == (StabilityDeposit { shares: 0, epoch }),
    {
        StabilityDeposit { shares: 0, epoch }
    }

    /// The stablecoin value of the deposit's shares at the pool's current
    /// backing: `shares * total_nusd / total_shares`, zero when the pool or
    /// the deposit is empty.
    pub open spec fn amount_spec(self, total_nusd: Balance, total_shares: Balance) -> int {
        if self.shares == 0 || total_shares == 0 || total_nusd == 0 {
            0
        } else {
            self.shares * total_nusd / total_shares as int
        }
    }

    /// Evaluates [`Self::amount_spec`], reporting overflow of the
    /// intermediate product.
    pub fn amount(&self, total_nusd: Balance, total_shares: Balance) -> (r: Result<
        Balance,
        crate::errors::CdpError,
    >)
        ensures
            match r {
                Ok(v) => v == self.amount_spec(total_nusd, total_shares) && (self.shares
                    * total_nusd <= u128::MAX || total_shares == 0 || self.shares == 0 || total_nusd
                    == 0),
                Err(e) => e == crate::errors::CdpError::Overflow && self.shares * total_nusd
                    > u128::MAX && self.shares != 0 && total_shares != 0 && total_nusd != 0,
            },
    {
        if self.shares == 0 || total_shares == 0 || total_nusd == 0 {
            Ok(0)
        } else {
            match self.shares.checked_mul(total_nusd) {
                None => Err(crate::errors::CdpError::Overflow),
                Some(scaled) => Ok(scaled / total_shares),
            }
        }
    }
}

/// An instruction to the value-transfer collaborator: deliver `amount` of
/// `token_id` to `receiver_id`.  Issued after state has been committed.
#[derive(Clone, Copy, Debug, PartialEq, Eq, Structural)]
pub struct CollateralTransfer {
    pub receiver_id: AccountId,
    pub token_id: TokenId,
    pub amount: Balance,
}

} // verus!
