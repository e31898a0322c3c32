//! Accounting core of an over-collateralized stablecoin protocol.
//!
//! Users lock collateral in troves, borrow a stable unit against it, and a
//! shared stability pool absorbs debt from undercollateralized positions in
//! exchange for seized collateral.  This crate holds the bookkeeping engine:
//! collateralization-ratio enforcement, debt-ceiling enforcement, the
//! reward-per-share distribution scheme for the stability pool, epoch-based
//! invalidation when the pool empties, and liquidation/redemption arithmetic.
//!
//! The ledger that tracks stablecoin balances, the component that delivers
//! collateral tokens, and the price oracle are external collaborators: the
//! engine validates and commits state, then reports what to mint, burn or
//! transfer; callers perform those effects.

pub mod contract;
pub mod engine;
pub mod errors;
pub mod laws;
pub mod liquidation;
pub mod math;
pub mod pmap;
pub mod pool;
pub mod sums;
pub mod trove;
pub mod types;
pub mod umap;
