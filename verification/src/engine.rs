//! Claims and redemption.
//!
//! The claim ledger pays out collateral accumulated from liquidation
//! penalties, redemptions and settled stability-pool rewards; the balance
//! is decremented before the transfer instruction is issued, so a failed
//! external delivery never restores it silently.  Redemption lets any
//! stablecoin holder burn stablecoin against an arbitrary trove at the
//! oracle price, regardless of that trove's health.

use vstd::prelude::*;

use crate::contract::Contract;
use crate::errors::CdpError;
use crate::math::pow10;
use crate::sums::{debt_sum, lemma_debt_sum_bound, lemma_debt_sum_remove, lemma_debt_sum_update};
use crate::types::{AccountId, Balance, CollateralTransfer, TokenId, Trove};

verus! {

impl Contract {
    /// Why `claim_collateral_reward` would be rejected, if it would be.
    pub open spec fn claim_err(
        self,
        caller: AccountId,
        collateral_id: TokenId,
        amount: Option<Balance>,
    ) -> Option<CdpError> {
        if self.settle_overflows(caller) {
            Some(CdpError::Overflow)
        } else if self.settle_overflow_at(caller, collateral_id) {
            Some(CdpError::Overflow)
        } else {
            let total = self.reward_val(caller, collateral_id) + self.pending_of(
                caller,
                collateral_id,
            );
            if total == 0 {
                Some(CdpError::NothingToClaim)
            } else {
                let to_claim: int = match amount {
                    Some(v) => v as int,
                    None => total,
                };
                if to_claim == 0 {
                    Some(CdpError::InvalidAmount)
                } else if to_claim > total {
                    Some(CdpError::ExceedsClaimable)
                } else {
                    None
                }
            }
        }
    }

    /// Pays out an account's claimable collateral: settles pending
    /// stability-pool rewards first, then decrements the claimable balance
    /// (removing an emptied entry) and returns the transfer instruction.
    pub fn claim_collateral_reward(
        &mut self,
        caller: AccountId,
        collateral_id: TokenId,
        amount: Option<Balance>,
    ) -> (r: Result<CollateralTransfer, CdpError>)
        requires
            old(self).wf(),
        ensures
            final(self).wf(),
            match r {
                Ok(t) => {
                    let total = old(self).reward_val(caller, collateral_id) + old(self).pending_of(
                        caller,
                        collateral_id,
                    );
                    let to_claim: int = match amount {
                        Some(v) => v as int,
                        None => total,
                    };
                    &&& old(self).claim_err(caller, collateral_id, amount) is None
                    &&& t == (CollateralTransfer {
                        receiver_id: caller,
                        token_id: collateral_id,
                        amount: to_claim as u128,
                    })
                    &&& final(self).reward_val(caller, collateral_id) == total - to_claim
                    &&& forall|k: u64| #[trigger]
                        old(self).reward_per_share.m().contains_key(k) && k != collateral_id
                            ==> final(self).reward_val(caller, k) == old(self).reward_val(caller, k)
                            + old(self).pending_of(caller, k)
                    &&& forall|k: u64|
                        !old(self).reward_per_share.m().contains_key(k) && k != collateral_id
                            ==> final(self).collateral_rewards.get_opt((caller, k)) == old(self).collateral_rewards.get_opt((caller, k))
                    &&& forall|k2: (u64, u64)|
                        k2.0 != caller ==> final(self).collateral_rewards.get_opt(k2) == old(self).collateral_rewards.get_opt(k2)
                    &&& final(self).stability_pool_deposits.m() == old(self).stability_pool_deposits.m().insert(
                        caller,
                        old(self).refreshed_deposit(caller),
                    )
                    &&& (old(self).settle_basis(caller).shares > 0 ==> forall|k: u64| #[trigger]
                        old(self).reward_per_share.m().contains_key(k) ==> final(self).reward_debt_val(caller, k) == old(self).rps_val(k))
                    &&& (old(self).settle_basis(caller).shares == 0 ==> final(self).reward_debt.m() == old(self).reward_debt.m())
                    &&& forall|k2: (u64, u64)|
                        k2.0 != caller ==> final(self).reward_debt.get_opt(k2) == old(self).reward_debt.get_opt(k2)
                    &&& forall|k: u64|
                        !old(self).reward_per_share.m().contains_key(k) ==> final(self).reward_debt.get_opt((caller, k)) == old(self).reward_debt.get_opt(
                            (caller, k),
                        )
                    &&& Self::same_admin(*old(self), *final(self))
                    &&& Self::same_rps(*old(self), *final(self))
                    &&& Self::same_cutoffs(*old(self), *final(self))
                    &&& Self::same_pool(*old(self), *final(self))
                    &&& Self::frame_pool_side(*old(self), *final(self))
                },
                Err(e) => old(self).claim_err(caller, collateral_id, amount) == Some(e) && *final(self) == *old(self),
            },
    {
        let ghost s0 = *old(self);
        let mut work = self.duplicate();
        let ghost w0 = work;
        proof {
            assert(w0.settle_basis(caller) == s0.settle_basis(caller));
            assert(w0.refreshed_deposit(caller) == s0.refreshed_deposit(caller));
            assert forall|k: u64| w0.pending_of(caller, k) == s0.pending_of(caller, k) by {}
            assert forall|k: u64| w0.reward_val(caller, k) == s0.reward_val(caller, k) by {}
            assert forall|k: u64| w0.rps_val(k) == s0.rps_val(k) by {}
            assert forall|k: u64|
                w0.settle_overflow_at(caller, k) == s0.settle_overflow_at(caller, k) by {}
            assert(w0.settle_overflows(caller) == s0.settle_overflows(caller)) by {
                if w0.settle_overflows(caller) {
                    let k = choose|k: u64| #[trigger]
                        w0.reward_per_share.m().contains_key(k) && w0.settle_overflow_at(
                            caller,
                            k,
                        );
                    assert(s0.reward_per_share.m().contains_key(k) && s0.settle_overflow_at(
                        caller,
                        k,
                    ));
                }
                if s0.settle_overflows(caller) {
                    let k = choose|k: u64| #[trigger]
                        s0.reward_per_share.m().contains_key(k) && s0.settle_overflow_at(caller, k);
                    assert(w0.reward_per_share.m().contains_key(k) && w0.settle_overflow_at(
                        caller,
                        k,
                    ));
                }
            }
        }
        match work.settle_stability_rewards(caller) {
            Ok(()) => (),
            Err(e) => {
                return Err(e);
            },
        }
        // After settlement the stored claimable balance covers the pending
        // share; an asset the accumulator never listed keeps its balance.
        let claimable = match work.collateral_rewards.get(caller, collateral_id) {
            Some(v) => v,
            None => 0,
        };
        proof {
            if s0.reward_per_share.m().contains_key(collateral_id) {
                assert(claimable == s0.reward_val(caller, collateral_id) + s0.pending_of(
                    caller,
                    collateral_id,
                ));
            } else {
                assert(s0.rps_val(collateral_id) == 0) by {
                    assert(s0.reward_per_share.get_opt(collateral_id) is None);
                }
                assert(s0.pending_of(caller, collateral_id) == 0);
                assert(claimable == s0.reward_val(caller, collateral_id));
            }
        }
        if claimable == 0 {
            return Err(CdpError::NothingToClaim);
        }
        let to_claim = match amount {
            Some(v) => v,
            None => claimable,
        };
        if to_claim == 0 {
            return Err(CdpError::InvalidAmount);
        }
        if to_claim > claimable {
            return Err(CdpError::ExceedsClaimable);
        }
        let remaining = claimable - to_claim;
        let ghost w1 = work;
        if remaining == 0 {
            work.collateral_rewards.remove(caller, collateral_id);
        } else {
            work.collateral_rewards.set(caller, collateral_id, remaining);
        }
        proof {
            let sf = work;
            assert forall|k2: (u64, u64)| #[trigger]
                sf.collateral_rewards.m().contains_key(k2) implies sf.collateral_rewards.m()[k2]
                > 0 by {
                if k2 != (caller, collateral_id) {
                    assert(w1.collateral_rewards.m().contains_key(k2));
                }
            }
            assert forall|x: u64| sf.total_debt_val(x) == debt_sum(sf.troves.entries@, x) by {
                assert(s0.total_debt_val(x) == debt_sum(s0.troves.entries@, x));
            }
            assert forall|x: u64| #[trigger]
                sf.total_debt.m().contains_key(x) implies sf.total_debt.m()[x] > 0 by {
                assert(s0.total_debt.m().contains_key(x));
            }
            assert forall|x: u64| #[trigger]
                sf.configs.m().contains_key(x) implies sf.total_debt_val(x)
                <= sf.configs.m()[x].debt_ceiling by {
                assert(s0.configs.m().contains_key(x));
            }
            Self::lemma_wf_from_parts(s0, sf);
            let total = s0.reward_val(caller, collateral_id) + s0.pending_of(
                caller,
                collateral_id,
            );
            assert(s0.claim_err(caller, collateral_id, amount) is None);
            assert(sf.reward_val(caller, collateral_id) == total - to_claim);
            assert forall|k: u64| #[trigger]
                s0.reward_per_share.m().contains_key(k) && k != collateral_id implies sf.reward_val(
                caller,
                k,
            ) == s0.reward_val(caller, k) + s0.pending_of(caller, k) by {
                assert(w1.reward_val(caller, k) == s0.reward_val(caller, k) + s0.pending_of(
                    caller,
                    k,
                ));
            }
            assert(sf.stability_pool_deposits.m() == s0.stability_pool_deposits.m().insert(
                caller,
                s0.refreshed_deposit(caller),
            ));
            assert(Self::same_pool(s0, sf));
            assert(Self::frame_pool_side(s0, sf));
            assert forall|k2: (u64, u64)| k2.0 != caller implies sf.collateral_rewards.get_opt(k2)
                == s0.collateral_rewards.get_opt(k2) by {
                assert(w1.collateral_rewards.get_opt(k2) == s0.collateral_rewards.get_opt(k2));
                assert(k2 != (caller, collateral_id));
            }
        }
        *self = work;
        Ok(CollateralTransfer { receiver_id: caller, token_id: collateral_id, amount: to_claim })
    }

    /// Why `redeem` would be rejected, if it would be.
    pub open spec fn redeem_err(
        self,
        collateral_id: TokenId,
        trove_owner: AccountId,
        redeemer: AccountId,
        amount: Balance,
    ) -> Option<CdpError> {
        if amount == 0 {
            Some(CdpError::InvalidAmount)
        } else if self.trove_of(trove_owner, collateral_id) is None {
            Some(CdpError::TroveNotFound)
        } else if amount > self.trove_of(trove_owner, collateral_id).unwrap().debt_amount {
            Some(CdpError::RedeemExceedsDebt)
        } else if self.price_of(collateral_id) is None {
            Some(CdpError::PriceNotAvailable)
        } else {
            let t0 = self.trove_of(trove_owner, collateral_id).unwrap();
            let feed = self.price_of(collateral_id).unwrap();
            if amount * pow10(feed.decimals as nat) > u128::MAX {
                Some(CdpError::Overflow)
            } else {
                let out = amount * pow10(feed.decimals as nat) / (feed.price as int);
                if out == 0 {
                    Some(CdpError::RedeemTooSmall)
                } else if out > t0.collateral_amount {
                    Some(CdpError::RedeemExceedsCollateral)
                } else if self.reward_val(redeemer, collateral_id) + out > u128::MAX {
                    Some(CdpError::Overflow)
                } else {
                    None
                }
            }
        }
    }

    /// The collateral a redemption of `amount` takes at the current price:
    /// `amount * 10^decimals / price`.
    pub open spec fn redeem_collateral_out(self, collateral_id: TokenId, amount: Balance) -> int {
        let feed = self.price_of(collateral_id).unwrap();
        amount * pow10(feed.decimals as nat) / (feed.price as int)
    }

    /// Exchanges stablecoin for collateral from a targeted trove at the
    /// oracle price, regardless of the trove's health.  The seized
    /// collateral is credited to the redeemer's claimable ledger; the
    /// caller owes the ledger a burn of `amount` from the redeemer.
    /// Returns the collateral credited.
    pub fn redeem(
        &mut self,
        redeemer: AccountId,
        collateral_id: TokenId,
        trove_owner: AccountId,
        amount: Balance,
        now_ms: u64,
    ) -> (r: Result<Balance, CdpError>)
        requires
            old(self).wf(),
        ensures
            final(self).wf(),
            match r {
                Ok(out) => {
                    let t0 = old(self).trove_of(trove_owner, collateral_id).unwrap();
                    let t1 = Trove {
                        collateral_amount: (t0.collateral_amount - out) as u128,
                        debt_amount: (t0.debt_amount - amount) as u128,
                        last_update_timestamp: now_ms,
                    };
                    let new_total = old(self).total_debt_val(collateral_id) - amount;
                    &&& old(self).redeem_err(collateral_id, trove_owner, redeemer, amount) is None
                    &&& out == old(self).redeem_collateral_out(collateral_id, amount)
                    &&& (t1.debt_amount == 0 && t1.collateral_amount == 0 ==> final(self).troves.m() == old(self).troves.m().remove((trove_owner, collateral_id)))
                    &&& (!(t1.debt_amount == 0 && t1.collateral_amount == 0) ==> final(self).troves.m() == old(self).troves.m().insert((trove_owner, collateral_id), t1))
                    &&& (new_total == 0 ==> final(self).total_debt.m() == old(self).total_debt.m().remove(collateral_id))
                    &&& (new_total > 0 ==> final(self).total_debt.m() == old(self).total_debt.m().insert(collateral_id, new_total as u128))
                    &&& final(self).collateral_rewards.m() == old(self).collateral_rewards.m().insert(
                        (redeemer, collateral_id),
                        (old(self).reward_val(redeemer, collateral_id) + out) as u128,
                    )
                    &&& Self::same_admin(*old(self), *final(self))
                    &&& Self::same_configs(*old(self), *final(self))
                    &&& Self::same_prices(*old(self), *final(self))
                    &&& Self::same_deposits(*old(self), *final(self))
                    &&& Self::same_reward_debt(*old(self), *final(self))
                    &&& Self::same_rps(*old(self), *final(self))
                    &&& Self::same_cutoffs(*old(self), *final(self))
                    &&& Self::same_pool(*old(self), *final(self))
                },
                Err(e) => old(self).redeem_err(collateral_id, trove_owner, redeemer, amount)
                    == Some(e) && *final(self) == *old(self),
            },
    {
        if amount == 0 {
            return Err(CdpError::InvalidAmount);
        }
        let trove = match self.troves.get(trove_owner, collateral_id) {
            Some(t) => t,
            None => {
                return Err(CdpError::TroveNotFound);
            },
        };
        if amount > trove.debt_amount {
            return Err(CdpError::RedeemExceedsDebt);
        }
        let feed = match self.price_feeds.get(collateral_id) {
            Some(p) => p,
            None => {
                return Err(CdpError::PriceNotAvailable);
            },
        };
        proof {
            self.price_feeds.lemma_at(self.price_feeds.idx_of(collateral_id));
        }
        let divisor = crate::math::decimals_factor(feed.decimals);
        let scaled = match amount.checked_mul(divisor) {
            Some(v) => v,
            None => {
                return Err(CdpError::Overflow);
            },
        };
        let collateral_out = scaled / feed.price;
        if collateral_out == 0 {
            return Err(CdpError::RedeemTooSmall);
        }
        if collateral_out > trove.collateral_amount {
            return Err(CdpError::RedeemExceedsCollateral);
        }
        let current_reward = match self.collateral_rewards.get(redeemer, collateral_id) {
            Some(v) => v,
            None => 0,
        };
        let new_reward = match current_reward.checked_add(collateral_out) {
            Some(v) => v,
            None => {
                return Err(CdpError::Overflow);
            },
        };
        let updated = Trove {
            collateral_amount: trove.collateral_amount - collateral_out,
            debt_amount: trove.debt_amount - amount,
            last_update_timestamp: now_ms,
        };
        proof {
            let i = self.troves.idx_of((trove_owner, collateral_id));
            self.troves.lemma_at(i);
            lemma_debt_sum_bound(self.troves.entries@, i, collateral_id);
            assert(amount <= self.total_debt_val(collateral_id));
        }
        if updated.debt_amount == 0 && updated.collateral_amount == 0 {
            self.troves.remove(trove_owner, collateral_id);
        } else {
            self.troves.set(trove_owner, collateral_id, updated);
        }
        let debt_result = self.decrease_total_debt(collateral_id, amount);
        self.collateral_rewards.set(redeemer, collateral_id, new_reward);
        proof {
            let s0 = *old(self);
            let sf = *self;
            let ghost k = (trove_owner, collateral_id);
            let i = s0.troves.idx_of(k);
            assert(debt_result is Ok);
            assert forall|x: u64| sf.total_debt_val(x) == debt_sum(sf.troves.entries@, x) by {
                assert(s0.total_debt_val(x) == debt_sum(s0.troves.entries@, x));
                if updated.debt_amount == 0 && updated.collateral_amount == 0 {
                    lemma_debt_sum_remove(s0.troves.entries@, i, x);
                } else {
                    lemma_debt_sum_update(s0.troves.entries@, i, (k, updated), x);
                }
            }
            assert forall|x: u64| #[trigger]
                sf.total_debt.m().contains_key(x) implies sf.total_debt.m()[x] > 0 by {
                if x != collateral_id {
                    assert(s0.total_debt.m().contains_key(x));
                }
            }
            assert forall|x: u64| #[trigger]
                sf.configs.m().contains_key(x) implies sf.total_debt_val(x)
                <= sf.configs.m()[x].debt_ceiling by {
                assert(s0.configs.m().contains_key(x));
            }
            assert forall|k2: (u64, u64)| #[trigger]
                sf.collateral_rewards.m().contains_key(k2) implies sf.collateral_rewards.m()[k2]
                > 0 by {
                if k2 != (redeemer, collateral_id) {
                    assert(s0.collateral_rewards.m().contains_key(k2));
                }
            }
            Self::lemma_wf_from_parts(s0, sf);
        }
        Ok(collateral_out)
    }
}

} // verus!
