//! The trove ledger: collateral deposits, borrowing, repayment, collateral
//! withdrawal and closing of positions.
//!
//! Borrow and withdraw are the two operations that can lower a trove's
//! health, so both re-check the collateralization ratio against the asset's
//! minimum before committing; adding collateral or repaying debt cannot
//! worsen health and performs no ratio check.

use vstd::prelude::*;

use crate::contract::Contract;
use crate::errors::CdpError;
use crate::math::{collateral_ratio, ratio_overflows, ratio_spec};
use crate::sums::{debt_sum, lemma_debt_sum_bound, lemma_debt_sum_push, lemma_debt_sum_update};
use crate::types::{AccountId, Balance, CollateralTransfer, TokenId, Trove};

verus! {

impl Contract {
    /// Re-assembles well-formedness when only the troves and the debt
    /// totals changed.
    pub proof fn lemma_wf_trove_op(a: Contract, b: Contract)
        requires
            a.wf(),
            b == (Contract { troves: b.troves, total_debt: b.total_debt, ..a }),
            b.troves.wf(),
            b.total_debt.wf(),
            forall|x: u64| b.total_debt_val(x) == debt_sum(b.troves.entries@, x),
            forall|x: u64| #[trigger] b.total_debt.m().contains_key(x) ==> b.total_debt.m()[x] > 0,
            forall|x: u64| #[trigger]
                b.configs.m().contains_key(x) ==> b.total_debt_val(x) <= b.configs.m()[x].debt_ceiling,
        ensures
            b.wf(),
    {
        assert forall|x: u64| #[trigger]
            b.stability_pool_deposits.m().contains_key(x) implies b.stability_pool_deposits.m()[x].epoch
            <= b.stability_pool_epoch by {
            assert(a.stability_pool_deposits.m().contains_key(x));
        }
        assert forall|k: (u64, u64)| #[trigger]
            b.collateral_rewards.m().contains_key(k) implies b.collateral_rewards.m()[k] > 0 by {
            assert(a.collateral_rewards.m().contains_key(k));
        }
        assert forall|x: u64| #[trigger]
            b.configs.m().contains_key(x) implies b.configs.m()[x].min_collateral_ratio_bps >= 1100
            && b.configs.m()[x].recovery_collateral_ratio_bps
            >= b.configs.m()[x].min_collateral_ratio_bps by {
            assert(a.configs.m().contains_key(x));
        }
        assert forall|x: u64| #[trigger]
            b.price_feeds.m().contains_key(x) implies b.price_feeds.m()[x].price > 0
            && b.price_feeds.m()[x].decimals <= 18 by {
            assert(a.price_feeds.m().contains_key(x));
        }
        assert forall|k: (u64, u64)| #[trigger]
            b.epoch_reward_cutoff.m().contains_key(
                k,
            ) implies b.reward_per_share.m().contains_key(k.1) by {
            assert(a.epoch_reward_cutoff.m().contains_key(k));
        }
    }

    /// The minimum collateral ratio of `token`, when registered.
    pub open spec fn mcr_of(self, token: TokenId) -> int {
        self.configs.m()[token].min_collateral_ratio_bps as int
    }

    /// Why `deposit_collateral` would be rejected, if it would be.
    pub open spec fn deposit_collateral_err(
        self,
        owner_id: AccountId,
        collateral_id: TokenId,
        amount: Balance,
    ) -> Option<CdpError> {
        if amount == 0 {
            Some(CdpError::InvalidAmount)
        } else if self.config_of(collateral_id) is None {
            Some(CdpError::NotSupported)
        } else if self.base_trove(owner_id, collateral_id).collateral_amount + amount
            > u128::MAX {
            Some(CdpError::Overflow)
        } else {
            None
        }
    }

    /// The trove the operation starts from: the stored one, or a fresh
    /// empty trove created lazily on first collateral deposit.
    pub open spec fn base_trove(self, owner_id: AccountId, collateral_id: TokenId) -> Trove {
        match self.trove_of(owner_id, collateral_id) {
            Some(t) => t,
            None => Trove { collateral_amount: 0, debt_amount: 0, last_update_timestamp: 0 },
        }
    }

    /// Adds collateral to a trove, creating it on first use.  No ratio
    /// check: adding collateral cannot worsen health.
    pub fn deposit_collateral(
        &mut self,
        owner_id: AccountId,
        collateral_id: TokenId,
        amount: Balance,
        now_ms: u64,
    ) -> (r: Result<(), CdpError>)
        requires
            old(self).wf(),
        ensures
            final(self).wf(),
            match r {
                Ok(()) => {
                    let t0 = old(self).base_trove(owner_id, collateral_id);
                    let t1 = Trove {
                        collateral_amount: (t0.collateral_amount + amount) as u128,
                        debt_amount: t0.debt_amount,
                        last_update_timestamp: now_ms,
                    };
                    &&& old(self).deposit_collateral_err(owner_id, collateral_id, amount) is None
                    &&& final(self).troves.m() == old(self).troves.m().insert(
                        (owner_id, collateral_id),
                        t1,
                    )
                    &&& Self::frame_troves(*old(self), *final(self))
                },
                Err(e) => old(self).deposit_collateral_err(owner_id, collateral_id, amount)
                    == Some(e) && *final(self) == *old(self),
            },
    {
        if amount == 0 {
            return Err(CdpError::InvalidAmount);
        }
        if self.configs.get(collateral_id).is_none() {
            return Err(CdpError::NotSupported);
        }
        let trove = match self.troves.get(owner_id, collateral_id) {
            Some(t) => t,
            None => Trove { collateral_amount: 0, debt_amount: 0, last_update_timestamp: 0 },
        };
        let new_collateral = match trove.collateral_amount.checked_add(amount) {
            Some(v) => v,
            None => {
                return Err(CdpError::Overflow);
            },
        };
        let updated = Trove {
            collateral_amount: new_collateral,
            debt_amount: trove.debt_amount,
            last_update_timestamp: now_ms,
        };
        proof {
            if old(self).troves.dom_has((owner_id, collateral_id)) {
                old(self).troves.lemma_at(old(self).troves.idx_of((owner_id, collateral_id)));
            }
        }
        self.troves.set(owner_id, collateral_id, updated);
        proof {
            let s0 = *old(self);
            let sf = *self;
            let ghost k = (owner_id, collateral_id);
            assert forall|x: u64| sf.total_debt_val(x) == debt_sum(sf.troves.entries@, x) by {
                assert(s0.total_debt_val(x) == debt_sum(s0.troves.entries@, x));
                if s0.troves.dom_has(k) {
                    let i = s0.troves.idx_of(k);
                    lemma_debt_sum_update(s0.troves.entries@, i, (k, updated), x);
                } else {
                    lemma_debt_sum_push(s0.troves.entries@, (k, updated), x);
                }
            }
            assert forall|x: u64| #[trigger]
                sf.total_debt.m().contains_key(x) implies sf.total_debt.m()[x] > 0 by {
                assert(s0.total_debt.m().contains_key(x));
            }
            assert forall|x: u64| #[trigger]
                sf.configs.m().contains_key(x) implies sf.total_debt_val(x)
                <= sf.configs.m()[x].debt_ceiling by {
                assert(s0.configs.m().contains_key(x));
            }
            Self::lemma_wf_trove_op(s0, sf);
        }
        Ok(())
    }

    /// Why `borrow` would be rejected, if it would be.  The checks run in
    /// order: validation, lookups, the trove's own debt against the
    /// ceiling, the ratio against the minimum, then the asset total against
    /// the ceiling.
    pub open spec fn borrow_err(
        self,
        caller: AccountId,
        collateral_id: TokenId,
        amount: Balance,
    ) -> Option<CdpError> {
        if amount == 0 {
            Some(CdpError::InvalidAmount)
        } else if self.trove_of(caller, collateral_id) is None {
            Some(CdpError::TroveNotFound)
        } else if self.config_of(collateral_id) is None {
            Some(CdpError::NotSupported)
        } else if self.price_of(collateral_id) is None {
            Some(CdpError::PriceNotAvailable)
        } else {
            let t0 = self.trove_of(caller, collateral_id).unwrap();
            let cfg = self.config_of(collateral_id).unwrap();
            let feed = self.price_of(collateral_id).unwrap();
            let new_debt = t0.debt_amount + amount;
            if new_debt > u128::MAX {
                Some(CdpError::Overflow)
            } else if new_debt > cfg.debt_ceiling {
                Some(CdpError::CeilingExceeded)
            } else if ratio_overflows(
                t0.collateral_amount,
                new_debt as u128,
                feed.price,
                feed.decimals,
            ) {
                Some(CdpError::Overflow)
            } else if ratio_spec(t0.collateral_amount, new_debt as u128, feed.price, feed.decimals)
                < cfg.min_collateral_ratio_bps {
                Some(CdpError::BelowMcr)
            } else if self.total_debt_val(collateral_id) + amount > u128::MAX {
                Some(CdpError::Overflow)
            } else if self.total_debt_val(collateral_id) + amount > cfg.debt_ceiling {
                Some(CdpError::CeilingExceeded)
            } else {
                None
            }
        }
    }

    /// Raises a trove's debt, checking the debt ceiling and the minimum
    /// collateral ratio at the current price with the new debt.  On success
    /// the caller owes the borrower a mint of `amount` stablecoin.
    pub fn borrow(
        &mut self,
        caller: AccountId,
        collateral_id: TokenId,
        amount: Balance,
        now_ms: u64,
    ) -> (r: Result<(), CdpError>)
        requires
            old(self).wf(),
        ensures
            final(self).wf(),
            match r {
                Ok(()) => {
                    let t0 = old(self).trove_of(caller, collateral_id).unwrap();
                    let feed = old(self).price_of(collateral_id).unwrap();
                    let t1 = Trove {
                        collateral_amount: t0.collateral_amount,
                        debt_amount: (t0.debt_amount + amount) as u128,
                        last_update_timestamp: now_ms,
                    };
                    &&& old(self).borrow_err(caller, collateral_id, amount) is None
                    &&& final(self).troves.m() == old(self).troves.m().insert(
                        (caller, collateral_id),
                        t1,
                    )
                    &&& final(self).total_debt.m() == old(self).total_debt.m().insert(
                        collateral_id,
                        (old(self).total_debt_val(collateral_id) + amount) as u128,
                    )
                    &&& Self::frame_troves_debt(*old(self), *final(self))
                    &&& t1.debt_amount > 0
                    &&& ratio_spec(t1.collateral_amount, t1.debt_amount, feed.price, feed.decimals)
                        >= old(self).mcr_of(collateral_id)
                },
                Err(e) => old(self).borrow_err(caller, collateral_id, amount) == Some(e)
                    && *final(self) == *old(self),
            },
    {
        if amount == 0 {
            return Err(CdpError::InvalidAmount);
        }
        let trove = match self.troves.get(caller, collateral_id) {
            Some(t) => t,
            None => {
                return Err(CdpError::TroveNotFound);
            },
        };
        let config = match self.configs.get(collateral_id) {
            Some(c) => c,
            None => {
                return Err(CdpError::NotSupported);
            },
        };
        let feed = match self.price_feeds.get(collateral_id) {
            Some(p) => p,
            None => {
                return Err(CdpError::PriceNotAvailable);
            },
        };
        let new_debt = match trove.debt_amount.checked_add(amount) {
            Some(v) => v,
            None => {
                return Err(CdpError::Overflow);
            },
        };
        if new_debt > config.debt_ceiling {
            return Err(CdpError::CeilingExceeded);
        }
        proof {
            self.price_feeds.lemma_at(self.price_feeds.idx_of(collateral_id));
        }
        let ratio = match collateral_ratio(
            trove.collateral_amount,
            new_debt,
            feed.price,
            feed.decimals,
        ) {
            Ok(v) => v,
            Err(e) => {
                return Err(e);
            },
        };
        if ratio < config.min_collateral_ratio_bps as u128 {
            return Err(CdpError::BelowMcr);
        }
        let total = self.get_total_debt(collateral_id);
        let new_total = match total.checked_add(amount) {
            Some(v) => v,
            None => {
                return Err(CdpError::Overflow);
            },
        };
        if new_total > config.debt_ceiling {
            return Err(CdpError::CeilingExceeded);
        }
        let updated = Trove {
            collateral_amount: trove.collateral_amount,
            debt_amount: new_debt,
            last_update_timestamp: now_ms,
        };
        proof {
            self.troves.lemma_at(self.troves.idx_of((caller, collateral_id)));
        }
        self.troves.set(caller, collateral_id, updated);
        let ghost mid = *self;
        let debt_result = self.increase_total_debt(collateral_id, amount);
        proof {
            let s0 = *old(self);
            let sf = *self;
            let ghost k = (caller, collateral_id);
            let i = s0.troves.idx_of(k);
            assert(debt_result is Ok);
            assert forall|x: u64| sf.total_debt_val(x) == debt_sum(sf.troves.entries@, x) by {
                assert(s0.total_debt_val(x) == debt_sum(s0.troves.entries@, x));
                lemma_debt_sum_update(s0.troves.entries@, i, (k, updated), x);
            }
            assert forall|x: u64| #[trigger]
                sf.total_debt.m().contains_key(x) implies sf.total_debt.m()[x] > 0 by {
                if x != collateral_id {
                    assert(s0.total_debt.m().contains_key(x));
                }
            }
            assert forall|x: u64| #[trigger]
                sf.configs.m().contains_key(x) implies sf.total_debt_val(x)
                <= sf.configs.m()[x].debt_ceiling by {
                if x != collateral_id {
                    assert(s0.configs.m().contains_key(x));
                }
            }
            Self::lemma_wf_trove_op(s0, sf);
        }
        match debt_result {
            Ok(()) => Ok(()),
            Err(e) => Err(e),
        }
    }

    /// Why `repay` would be rejected, if it would be.
    pub open spec fn repay_err(
        self,
        caller: AccountId,
        collateral_id: TokenId,
        amount: Balance,
    ) -> Option<CdpError> {
        if amount == 0 {
            Some(CdpError::InvalidAmount)
        } else if self.trove_of(caller, collateral_id) is None {
            Some(CdpError::TroveNotFound)
        } else if amount > self.trove_of(caller, collateral_id).unwrap().debt_amount {
            Some(CdpError::RepayExceedsDebt)
        } else {
            None
        }
    }

    /// Lowers a trove's debt; a trove whose collateral and debt both reach
    /// zero is removed.  On success the caller owes the ledger a burn of
    /// `amount` stablecoin from the borrower.
    pub fn repay(
        &mut self,
        caller: AccountId,
        collateral_id: TokenId,
        amount: Balance,
        now_ms: u64,
    ) -> (r: Result<(), CdpError>)
        requires
            old(self).wf(),
        ensures
            final(self).wf(),
            match r {
                Ok(()) => {
                    let t0 = old(self).trove_of(caller, collateral_id).unwrap();
                    let t1 = Trove {
                        collateral_amount: t0.collateral_amount,
                        debt_amount: (t0.debt_amount - amount) as u128,
                        last_update_timestamp: now_ms,
                    };
                    let new_total = old(self).total_debt_val(collateral_id) - amount;
                    &&& old(self).repay_err(caller, collateral_id, amount) is None
                    &&& (t1.collateral_amount == 0 && t1.debt_amount == 0 ==> final(self).troves.m() == old(self).troves.m().remove((caller, collateral_id)))
                    &&& (!(t1.collateral_amount == 0 && t1.debt_amount == 0) ==> final(self).troves.m() == old(self).troves.m().insert((caller, collateral_id), t1))
                    &&& (new_total == 0 ==> final(self).total_debt.m() == old(self).total_debt.m().remove(collateral_id))
                    &&& (new_total > 0 ==> final(self).total_debt.m() == old(self).total_debt.m().insert(collateral_id, new_total as u128))
                    &&& Self::frame_troves_debt(*old(self), *final(self))
                },
                Err(e) => old(self).repay_err(caller, collateral_id, amount) == Some(e)
                    && *final(self) == *old(self),
            },
    {
        if amount == 0 {
            return Err(CdpError::InvalidAmount);
        }
        let trove = match self.troves.get(caller, collateral_id) {
            Some(t) => t,
            None => {
                return Err(CdpError::TroveNotFound);
            },
        };
        if amount > trove.debt_amount {
            return Err(CdpError::RepayExceedsDebt);
        }
        let updated = Trove {
            collateral_amount: trove.collateral_amount,
            debt_amount: trove.debt_amount - amount,
            last_update_timestamp: now_ms,
        };
        proof {
            assert(self.troves.dom_has((caller, collateral_id)));
            let i = self.troves.idx_of((caller, collateral_id));
            self.troves.lemma_at(i);
            lemma_debt_sum_bound(self.troves.entries@, i, collateral_id);
            assert(self.total_debt_val(collateral_id) == debt_sum(
                self.troves.entries@,
                collateral_id,
            ));
            assert(amount <= self.total_debt_val(collateral_id));
        }
        if updated.collateral_amount == 0 && updated.debt_amount == 0 {
            self.troves.remove(caller, collateral_id);
        } else {
            self.troves.set(caller, collateral_id, updated);
        }
        proof {
            assert(self.total_debt_val(collateral_id) == old(self).total_debt_val(collateral_id));
        }
        let debt_result = self.decrease_total_debt(collateral_id, amount);
        proof {
            let s0 = *old(self);
            let sf = *self;
            let ghost k = (caller, collateral_id);
            let i = s0.troves.idx_of(k);
            assert(debt_result is Ok);
            assert forall|x: u64| sf.total_debt_val(x) == debt_sum(sf.troves.entries@, x) by {
                assert(s0.total_debt_val(x) == debt_sum(s0.troves.entries@, x));
                if updated.collateral_amount == 0 && updated.debt_amount == 0 {
                    crate::sums::lemma_debt_sum_remove(s0.troves.entries@, i, x);
                } else {
                    lemma_debt_sum_update(s0.troves.entries@, i, (k, updated), x);
                }
            }
            assert forall|x: u64| #[trigger]
                sf.total_debt.m().contains_key(x) implies sf.total_debt.m()[x] > 0 by {
                if x != collateral_id {
                    assert(s0.total_debt.m().contains_key(x));
                }
            }
            assert forall|x: u64| #[trigger]
                sf.configs.m().contains_key(x) implies sf.total_debt_val(x)
                <= sf.configs.m()[x].debt_ceiling by {
                assert(s0.configs.m().contains_key(x));
            }
            Self::lemma_wf_trove_op(s0, sf);
        }
        match debt_result {
            Ok(()) => Ok(()),
            Err(e) => Err(e),
        }
    }

    /// Why `withdraw_collateral` would be rejected, if it would be.
    pub open spec fn withdraw_collateral_err(
        self,
        caller: AccountId,
        collateral_id: TokenId,
        amount: Balance,
    ) -> Option<CdpError> {
        if amount == 0 {
            Some(CdpError::InvalidAmount)
        } else if self.trove_of(caller, collateral_id) is None {
            Some(CdpError::TroveNotFound)
        } else {
            let t0 = self.trove_of(caller, collateral_id).unwrap();
            if amount > t0.collateral_amount {
                Some(CdpError::NotEnoughCollateral)
            } else if t0.debt_amount > 0 {
                let remaining = (t0.collateral_amount - amount) as u128;
                if self.price_of(collateral_id) is None {
                    Some(CdpError::PriceNotAvailable)
                } else if self.config_of(collateral_id) is None {
                    Some(CdpError::NotSupported)
                } else {
                    let feed = self.price_of(collateral_id).unwrap();
                    if ratio_overflows(remaining, t0.debt_amount, feed.price, feed.decimals) {
                        Some(CdpError::Overflow)
                    } else if ratio_spec(remaining, t0.debt_amount, feed.price, feed.decimals)
                        < self.mcr_of(collateral_id) {
                        Some(CdpError::BelowMcr)
                    } else {
                        None
                    }
                }
            } else {
                None
            }
        }
    }

    /// Removes collateral from a trove.  If debt remains, the ratio with
    /// the reduced collateral must still meet the minimum.  A trove whose
    /// collateral and debt both reach zero is removed.  On success the
    /// returned instruction delivers the collateral to the receiver
    /// (defaulting to the caller).
    pub fn withdraw_collateral(
        &mut self,
        caller: AccountId,
        collateral_id: TokenId,
        amount: Balance,
        receiver: Option<AccountId>,
        now_ms: u64,
    ) -> (r: Result<CollateralTransfer, CdpError>)
        requires
            old(self).wf(),
        ensures
            final(self).wf(),
            match r {
                Ok(t) => {
                    let t0 = old(self).trove_of(caller, collateral_id).unwrap();
                    let t1 = Trove {
                        collateral_amount: (t0.collateral_amount - amount) as u128,
                        debt_amount: t0.debt_amount,
                        last_update_timestamp: now_ms,
                    };
                    &&& old(self).withdraw_collateral_err(caller, collateral_id, amount) is None
                    &&& (t1.collateral_amount == 0 && t1.debt_amount == 0 ==> final(self).troves.m() == old(self).troves.m().remove((caller, collateral_id)))
                    &&& (!(t1.collateral_amount == 0 && t1.debt_amount == 0) ==> final(self).troves.m() == old(self).troves.m().insert((caller, collateral_id), t1))
                    &&& Self::frame_troves(*old(self), *final(self))
                    &&& t == (CollateralTransfer {
                        receiver_id: match receiver {
                            Some(rcv) => rcv,
                            None => caller,
                        },
                        token_id: collateral_id,
                        amount,
                    })
                    &&& (t1.debt_amount > 0 ==> ratio_spec(
                        t1.collateral_amount,
                        t1.debt_amount,
                        old(self).price_of(collateral_id).unwrap().price,
                        old(self).price_of(collateral_id).unwrap().decimals,
                    ) >= old(self).mcr_of(collateral_id))
                },
                Err(e) => old(self).withdraw_collateral_err(caller, collateral_id, amount)
                    == Some(e) && *final(self) == *old(self),
            },
    {
        if amount == 0 {
            return Err(CdpError::InvalidAmount);
        }
        let trove = match self.troves.get(caller, collateral_id) {
            Some(t) => t,
            None => {
                return Err(CdpError::TroveNotFound);
            },
        };
        if amount > trove.collateral_amount {
            return Err(CdpError::NotEnoughCollateral);
        }
        let remaining = trove.collateral_amount - amount;
        if trove.debt_amount > 0 {
            let feed = match self.price_feeds.get(collateral_id) {
                Some(p) => p,
                None => {
                    return Err(CdpError::PriceNotAvailable);
                },
            };
            let config = match self.configs.get(collateral_id) {
                Some(c) => c,
                None => {
                    return Err(CdpError::NotSupported);
                },
            };
            proof {
                self.price_feeds.lemma_at(self.price_feeds.idx_of(collateral_id));
            }
            let ratio = match collateral_ratio(
                remaining,
                trove.debt_amount,
                feed.price,
                feed.decimals,
            ) {
                Ok(v) => v,
                Err(e) => {
                    return Err(e);
                },
            };
            if ratio < config.min_collateral_ratio_bps as u128 {
                return Err(CdpError::BelowMcr);
            }
        }
        let updated = Trove {
            collateral_amount: remaining,
            debt_amount: trove.debt_amount,
            last_update_timestamp: now_ms,
        };
        proof {
            self.troves.lemma_at(self.troves.idx_of((caller, collateral_id)));
        }
        if updated.collateral_amount == 0 && updated.debt_amount == 0 {
            self.troves.remove(caller, collateral_id);
        } else {
            self.troves.set(caller, collateral_id, updated);
        }
        proof {
            let s0 = *old(self);
            let sf = *self;
            let ghost k = (caller, collateral_id);
            let i = s0.troves.idx_of(k);
            assert forall|x: u64| sf.total_debt_val(x) == debt_sum(sf.troves.entries@, x) by {
                assert(s0.total_debt_val(x) == debt_sum(s0.troves.entries@, x));
                if updated.collateral_amount == 0 && updated.debt_amount == 0 {
                    crate::sums::lemma_debt_sum_remove(s0.troves.entries@, i, x);
                } else {
                    lemma_debt_sum_update(s0.troves.entries@, i, (k, updated), x);
                }
            }
            assert forall|x: u64| #[trigger]
                sf.total_debt.m().contains_key(x) implies sf.total_debt.m()[x] > 0 by {
                assert(s0.total_debt.m().contains_key(x));
            }
            assert forall|x: u64| #[trigger]
                sf.configs.m().contains_key(x) implies sf.total_debt_val(x)
                <= sf.configs.m()[x].debt_ceiling by {
                assert(s0.configs.m().contains_key(x));
            }
            Self::lemma_wf_trove_op(s0, sf);
        }
        let receiver_id = match receiver {
            Some(rcv) => rcv,
            None => caller,
        };
        Ok(CollateralTransfer { receiver_id, token_id: collateral_id, amount })
    }

    /// Why `close_trove` would be rejected, if it would be.
    pub open spec fn close_trove_err(self, caller: AccountId, collateral_id: TokenId) -> Option<
        CdpError,
    > {
        if self.trove_of(caller, collateral_id) is None {
            Some(CdpError::TroveNotFound)
        } else if self.trove_of(caller, collateral_id).unwrap().debt_amount != 0 {
            Some(CdpError::OutstandingDebt)
        } else if self.trove_of(caller, collateral_id).unwrap().collateral_amount == 0 {
            Some(CdpError::NoCollateral)
        } else {
            None
        }
    }

    /// Removes a debt-free trove and instructs the transfer of its whole
    /// collateral back to the owner.
    pub fn close_trove(&mut self, caller: AccountId, collateral_id: TokenId) -> (r: Result<
        CollateralTransfer,
        CdpError,
    >)
        requires
            old(self).wf(),
        ensures
            final(self).wf(),
            match r {
                Ok(t) => {
                    &&& old(self).close_trove_err(caller, collateral_id) is None
                    &&& final(self).troves.m() == old(self).troves.m().remove(
                        (caller, collateral_id),
                    )
                    &&& Self::frame_troves(*old(self), *final(self))
                    &&& t == (CollateralTransfer {
                        receiver_id: caller,
                        token_id: collateral_id,
                        amount: old(self).trove_of(caller, collateral_id).unwrap().collateral_amount,
                    })
                },
                Err(e) => old(self).close_trove_err(caller, collateral_id) == Some(e)
                    && *final(self) == *old(self),
            },
    {
        let trove = match self.troves.get(caller, collateral_id) {
            Some(t) => t,
            None => {
                return Err(CdpError::TroveNotFound);
            },
        };
        if trove.debt_amount != 0 {
            return Err(CdpError::OutstandingDebt);
        }
        if trove.collateral_amount == 0 {
            return Err(CdpError::NoCollateral);
        }
        proof {
            self.troves.lemma_at(self.troves.idx_of((caller, collateral_id)));
        }
        self.troves.remove(caller, collateral_id);
        proof {
            let s0 = *old(self);
            let sf = *self;
            let ghost k = (caller, collateral_id);
            let i = s0.troves.idx_of(k);
            assert forall|x: u64| sf.total_debt_val(x) == debt_sum(sf.troves.entries@, x) by {
                assert(s0.total_debt_val(x) == debt_sum(s0.troves.entries@, x));
                crate::sums::lemma_debt_sum_remove(s0.troves.entries@, i, x);
            }
            assert forall|x: u64| #[trigger]
                sf.total_debt.m().contains_key(x) implies sf.total_debt.m()[x] > 0 by {
                assert(s0.total_debt.m().contains_key(x));
            }
            assert forall|x: u64| #[trigger]
                sf.configs.m().contains_key(x) implies sf.total_debt_val(x)
                <= sf.configs.m()[x].debt_ceiling by {
                assert(s0.configs.m().contains_key(x));
            }
            Self::lemma_wf_trove_op(s0, sf);
        }
        Ok(CollateralTransfer { receiver_id: caller, token_id: collateral_id, amount: trove.collateral_amount })
    }
}

} // verus!
