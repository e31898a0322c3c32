//! The stability pool accountant: share pricing, the reward-per-share
//! accumulator, and the pool-burn that absorbs liquidated debt.
//!
//! Depositors own shares of a pooled stablecoin balance.  Liquidations burn
//! from that balance without touching shares, diluting the share price; in
//! exchange the accumulator `reward_per_share` grows, and each depositor's
//! pending seized collateral is settled lazily against a per-account
//! snapshot.  When a burn empties the pool, the share basis is gone: every
//! asset's accumulator value is frozen as that generation's settlement
//! cutoff, the pool's epoch advances, and stale deposits are reset before
//! their next use -- settled against the frozen cutoff, so they earn
//! nothing from distributions to later generations.

use vstd::prelude::*;

use crate::contract::Contract;
use crate::errors::CdpError;
use crate::math::REWARD_SCALE;
use crate::sums::{debt_sum, lemma_shares_sum_stale, shares_sum};
use crate::types::{AccountId, Balance, StabilityDeposit, TokenId};

verus! {

impl Contract {
    /// How many shares `amount` stablecoin mints at the current share
    /// price.  An empty pool bootstraps at one share per unit.
    pub open spec fn shares_from_amount_spec(self, amount: Balance) -> int {
        if self.stability_pool_total_shares == 0 || self.stability_pool_total_nusd == 0 {
            amount as int
        } else {
            amount * self.stability_pool_total_shares / (self.stability_pool_total_nusd as int)
        }
    }

    /// Evaluates [`Self::shares_from_amount_spec`], reporting overflow.
    pub fn shares_from_amount(&self, amount: Balance) -> (r: Result<Balance, CdpError>)
        ensures
            match r {
                Ok(v) => v == self.shares_from_amount_spec(amount) && (
                self.stability_pool_total_shares == 0 || self.stability_pool_total_nusd == 0
                    || amount * self.stability_pool_total_shares <= u128::MAX),
                Err(e) => e == CdpError::Overflow && self.stability_pool_total_shares != 0
                    && self.stability_pool_total_nusd != 0 && amount
                    * self.stability_pool_total_shares > u128::MAX,
            },
    {
        if self.stability_pool_total_shares == 0 || self.stability_pool_total_nusd == 0 {
            Ok(amount)
        } else {
            match amount.checked_mul(self.stability_pool_total_shares) {
                None => Err(CdpError::Overflow),
                Some(scaled) => Ok(scaled / self.stability_pool_total_nusd),
            }
        }
    }

    /// Share pricing for a pool withdrawal; the same conversion.
    pub fn shares_for_withdraw(&self, amount: Balance) -> (r: Result<Balance, CdpError>)
        ensures
            match r {
                Ok(v) => v == self.shares_from_amount_spec(amount) && (
                self.stability_pool_total_shares == 0 || self.stability_pool_total_nusd == 0
                    || amount * self.stability_pool_total_shares <= u128::MAX),
                Err(e) => e == CdpError::Overflow && self.stability_pool_total_shares != 0
                    && self.stability_pool_total_nusd != 0 && amount
                    * self.stability_pool_total_shares > u128::MAX,
            },
    {
        self.shares_from_amount(amount)
    }

    /// Adds claimable collateral to an account's ledger entry.  A zero
    /// amount changes nothing; entries stay positive.
    pub(crate) fn enqueue_collateral_reward(
        &mut self,
        account_id: AccountId,
        collateral_id: TokenId,
        amount: Balance,
    ) -> (r: Result<(), CdpError>)
        requires
            old(self).collateral_rewards.wf(),
        ensures
            final(self).collateral_rewards.wf(),
            *final(self) == (Contract {
                collateral_rewards: final(self).collateral_rewards,
                ..*old(self)
            }),
            match r {
                Ok(()) => {
                    &&& old(self).reward_val(account_id, collateral_id) + amount <= u128::MAX
                    &&& (amount == 0 ==> *final(self) == *old(self))
                    &&& (amount > 0 ==> final(self).collateral_rewards.m() == old(self).collateral_rewards.m().insert(
                        (account_id, collateral_id),
                        (old(self).reward_val(account_id, collateral_id) + amount) as u128,
                    ))
                },
                Err(e) => {
                    &&& e == CdpError::Overflow
                    &&& old(self).reward_val(account_id, collateral_id) + amount > u128::MAX
                    &&& *final(self) == *old(self)
                },
            },
    {
        if amount == 0 {
            return Ok(());
        }
        let current = match self.collateral_rewards.get(account_id, collateral_id) {
            Some(v) => v,
            None => 0,
        };
        let updated = match current.checked_add(amount) {
            Some(v) => v,
            None => {
                return Err(CdpError::Overflow);
            },
        };
        self.collateral_rewards.set(account_id, collateral_id, updated);
        Ok(())
    }

    /// The accumulator increase one distribution causes:
    /// `amount * SCALE / total_shares`.
    pub open spec fn rps_delta(self, amount: Balance) -> int {
        amount * REWARD_SCALE / (self.stability_pool_total_shares as int)
    }

    /// Distributes seized collateral to the pool by raising the
    /// reward-per-share accumulator.  With no shares outstanding the reward
    /// goes to the protocol owner's claimable ledger instead.
    pub(crate) fn accrue_reward_per_share(
        &mut self,
        collateral_id: TokenId,
        reward_amount: Balance,
    ) -> (r: Result<(), CdpError>)
        requires
            old(self).collateral_rewards.wf(),
            old(self).reward_per_share.wf(),
        ensures
            final(self).collateral_rewards.wf(),
            final(self).reward_per_share.wf(),
            *final(self) == (Contract {
                collateral_rewards: final(self).collateral_rewards,
                reward_per_share: final(self).reward_per_share,
                ..*old(self)
            }),
            match r {
                Ok(()) => {
                    &&& (reward_amount == 0 ==> *final(self) == *old(self))
                    &&& (reward_amount > 0 && old(self).stability_pool_total_shares == 0 ==> {
                        &&& old(self).reward_val(old(self).owner_id, collateral_id) + reward_amount
                            <= u128::MAX
                        &&& final(self).collateral_rewards.m() == old(self).collateral_rewards.m().insert(
                            (old(self).owner_id, collateral_id),
                            (old(self).reward_val(old(self).owner_id, collateral_id)
                                + reward_amount) as u128,
                        )
                        &&& final(self).reward_per_share == old(self).reward_per_share
                    })
                    &&& (reward_amount > 0 && old(self).stability_pool_total_shares > 0 ==> {
                        &&& reward_amount * REWARD_SCALE <= u128::MAX
                        &&& old(self).rps_val(collateral_id) + old(self).rps_delta(reward_amount)
                            <= u128::MAX
                        &&& final(self).reward_per_share.m() == old(self).reward_per_share.m().insert(
                            collateral_id,
                            (old(self).rps_val(collateral_id) + old(self).rps_delta(
                                reward_amount,
                            )) as u128,
                        )
                        &&& final(self).collateral_rewards == old(self).collateral_rewards
                    })
                },
                Err(e) => {
                    &&& e == CdpError::Overflow
                    &&& *final(self) == *old(self)
                    &&& reward_amount > 0
                    &&& (old(self).stability_pool_total_shares == 0 ==> old(self).reward_val(
                        old(self).owner_id,
                        collateral_id,
                    ) + reward_amount > u128::MAX)
                    &&& (old(self).stability_pool_total_shares > 0 ==> reward_amount * REWARD_SCALE
                        > u128::MAX || old(self).rps_val(collateral_id) + old(self).rps_delta(
                        reward_amount,
                    ) > u128::MAX)
                },
            },
    {
        if reward_amount == 0 {
            return Ok(());
        }
        if self.stability_pool_total_shares == 0 {
            let owner = self.owner_id;
            return self.enqueue_collateral_reward(owner, collateral_id, reward_amount);
        }
        let scaled = match reward_amount.checked_mul(REWARD_SCALE) {
            Some(v) => v,
            None => {
                return Err(CdpError::Overflow);
            },
        };
        let delta = scaled / self.stability_pool_total_shares;
        let accrued = match self.reward_per_share.get(collateral_id) {
            Some(v) => v,
            None => 0,
        };
        let updated = match accrued.checked_add(delta) {
            Some(v) => v,
            None => {
                return Err(CdpError::Overflow);
            },
        };
        self.reward_per_share.set(collateral_id, updated);
        Ok(())
    }

    /// Burns absorbed debt from the pooled stablecoin balance.  A burn that
    /// drains the pool exhausts the current share basis: every asset's
    /// accumulator value is frozen as the ending generation's cutoff, the
    /// share total resets to zero and the epoch advances, invalidating
    /// every outstanding deposit record.
    pub(crate) fn burn_from_stability_pool(&mut self, amount: Balance) -> (r: Result<
        (),
        CdpError,
    >)
        requires
            old(self).stability_pool_deposits.wf(),
            old(self).reward_per_share.wf(),
            old(self).epoch_reward_cutoff.wf(),
            shares_sum(old(self).stability_pool_deposits.entries@, old(self).stability_pool_epoch)
                == old(self).stability_pool_total_shares,
            forall|a: u64| #[trigger]
                old(self).stability_pool_deposits.m().contains_key(a) ==> old(self).stability_pool_deposits.m()[a].epoch <= old(self).stability_pool_epoch,
        ensures
            final(self).epoch_reward_cutoff.wf(),
            *final(self) == (Contract {
                stability_pool_total_shares: final(self).stability_pool_total_shares,
                stability_pool_total_nusd: final(self).stability_pool_total_nusd,
                stability_pool_epoch: final(self).stability_pool_epoch,
                epoch_reward_cutoff: final(self).epoch_reward_cutoff,
                ..*old(self)
            }),
            match r {
                Ok(()) => {
                    &&& amount > 0
                    &&& amount <= old(self).stability_pool_total_nusd
                    &&& final(self).stability_pool_total_nusd == old(self).stability_pool_total_nusd - amount
                    &&& (old(self).stability_pool_total_nusd - amount > 0 ==> final(self).stability_pool_total_shares == old(self).stability_pool_total_shares
                        && final(self).stability_pool_epoch == old(self).stability_pool_epoch
                        && final(self).epoch_reward_cutoff == old(self).epoch_reward_cutoff)
                    &&& (old(self).stability_pool_total_nusd - amount == 0 ==> {
                        &&& final(self).stability_pool_total_shares == 0
                        &&& final(self).stability_pool_epoch == old(self).stability_pool_epoch + 1
                        &&& forall|k: u64| #[trigger]
                            old(self).reward_per_share.m().contains_key(k) ==> final(self).epoch_reward_cutoff.get_opt((old(self).stability_pool_epoch, k))
                                == Some(old(self).rps_val(k))
                        &&& forall|k2: (u64, u64)|
                            !(k2.0 == old(self).stability_pool_epoch && old(self).reward_per_share.m().contains_key(k2.1)) ==> final(self).epoch_reward_cutoff.get_opt(k2) == old(self).epoch_reward_cutoff.get_opt(k2)
                    })
                    &&& shares_sum(
                        final(self).stability_pool_deposits.entries@,
                        final(self).stability_pool_epoch,
                    ) == final(self).stability_pool_total_shares
                    &&& forall|a: u64| #[trigger]
                        final(self).stability_pool_deposits.m().contains_key(a) ==> final(self).stability_pool_deposits.m()[a].epoch <= final(self).stability_pool_epoch
                },
                Err(e) => {
                    &&& *final(self) == *old(self)
                    &&& (if amount == 0 {
                        e == CdpError::InvalidAmount
                    } else if amount > old(self).stability_pool_total_nusd {
                        e == CdpError::InsufficientPoolFunds
                    } else {
                        amount == old(self).stability_pool_total_nusd && old(self).stability_pool_epoch == u64::MAX && e == CdpError::Overflow
                    })
                },
            },
    {
        if amount == 0 {
            return Err(CdpError::InvalidAmount);
        }
        if amount > self.stability_pool_total_nusd {
            return Err(CdpError::InsufficientPoolFunds);
        }
        if amount == self.stability_pool_total_nusd {
            let next_epoch = match self.stability_pool_epoch.checked_add(1) {
                Some(v) => v,
                None => {
                    return Err(CdpError::Overflow);
                },
            };
            // Freeze every listed asset's accumulator as this generation's
            // settlement cutoff.
            let ghost s0 = *old(self);
            let ending_epoch = self.stability_pool_epoch;
            let n = self.reward_per_share.len();
            let mut p: usize = 0;
            while p < n
                invariant
                    s0 == *old(self),
                    s0.reward_per_share.wf(),
                    s0.epoch_reward_cutoff.wf(),
                    n == s0.reward_per_share.entries@.len(),
                    p <= n,
                    ending_epoch == s0.stability_pool_epoch,
                    self.epoch_reward_cutoff.wf(),
                    *self == (Contract {
                        epoch_reward_cutoff: self.epoch_reward_cutoff,
                        ..s0
                    }),
                    forall|pp: int|
                        0 <= pp < p ==> self.epoch_reward_cutoff.get_opt(
                            (ending_epoch, s0.reward_per_share.entries@[pp].0),
                        ) == Some(s0.reward_per_share.entries@[pp].1),
                    forall|k2: (u64, u64)|
                        k2.0 != ending_epoch ==> self.epoch_reward_cutoff.get_opt(k2)
                            == s0.epoch_reward_cutoff.get_opt(k2),
                    forall|k: u64|
                        !s0.reward_per_share.m().contains_key(k)
                            ==> self.epoch_reward_cutoff.get_opt((ending_epoch, k))
                            == s0.epoch_reward_cutoff.get_opt((ending_epoch, k)),
                decreases n - p,
            {
                let token = self.reward_per_share.key_at(p);
                let global = self.reward_per_share.val_at(p);
                proof {
                    s0.reward_per_share.lemma_at(p as int);
                }
                self.epoch_reward_cutoff.set(ending_epoch, token, global);
                proof {
                    assert forall|pp: int| 0 <= pp < p + 1 implies self.epoch_reward_cutoff.get_opt(
                        (ending_epoch, s0.reward_per_share.entries@[pp].0),
                    ) == Some(s0.reward_per_share.entries@[pp].1) by {
                        if pp < p {
                            assert(s0.reward_per_share.entries@[pp].0
                                != s0.reward_per_share.entries@[p as int].0);
                        }
                    }
                }
                p = p + 1;
            }
            proof {
                assert forall|k: u64| #[trigger]
                    s0.reward_per_share.m().contains_key(k) implies self.epoch_reward_cutoff.get_opt(
                    (ending_epoch, k),
                ) == Some(s0.rps_val(k)) by {
                    let idx = s0.reward_per_share.idx_of(k);
                    s0.reward_per_share.lemma_at(idx);
                }
            }
            self.stability_pool_total_nusd = 0;
            self.stability_pool_total_shares = 0;
            self.stability_pool_epoch = next_epoch;
            proof {
                let sf = *self;
                assert forall|i: int|
                    0 <= i < sf.stability_pool_deposits.entries@.len()
                        implies sf.stability_pool_deposits.entries@[i].1.epoch
                    != sf.stability_pool_epoch by {
                    old(self).stability_pool_deposits.lemma_at(i);
                    assert(old(self).stability_pool_deposits.m().contains_key(
                        old(self).stability_pool_deposits.entries@[i].0,
                    ));
                }
                lemma_shares_sum_stale(
                    sf.stability_pool_deposits.entries@,
                    sf.stability_pool_epoch,
                );
            }
        } else {
            self.stability_pool_total_nusd = self.stability_pool_total_nusd - amount;
        }
        Ok(())
    }

    /// The deposit record settlement starts from: the stored one, or an
    /// empty fresh record for an account with none.
    pub open spec fn settle_basis(self, account: AccountId) -> StabilityDeposit {
        match self.deposit_of(account) {
            Some(d) => d,
            None => StabilityDeposit { shares: 0, epoch: self.stability_pool_epoch },
        }
    }

    /// The deposit record after the epoch rule is applied: a record of a
    /// past pool generation loses its shares and joins the current one.
    pub open spec fn refreshed_deposit(self, account: AccountId) -> StabilityDeposit {
        let d = self.settle_basis(account);
        if d.epoch == self.stability_pool_epoch {
            d
        } else {
            StabilityDeposit { shares: 0, epoch: self.stability_pool_epoch }
        }
    }

    /// The accumulator value `account`'s deposit is settled against for
    /// `token`: the live accumulator for a deposit of the current pool
    /// generation, the frozen value its own generation ended at otherwise.
    /// A stale deposit thus earns only up to the depletion point, never
    /// from later distributions.
    pub open spec fn settle_global(self, account: AccountId, token: TokenId) -> u128 {
        let d = self.settle_basis(account);
        if d.epoch == self.stability_pool_epoch {
            self.rps_val(token)
        } else {
            self.cutoff_val(d.epoch, token)
        }
    }

    /// The reward owed to `shares` shares last settled at accumulator value
    /// `paid`, against accumulator value `global`:
    /// `shares * (global - paid) / SCALE`.
    pub open spec fn pending_for(shares: Balance, paid: u128, global: u128) -> int {
        if global > paid {
            shares * (global - paid) / (REWARD_SCALE as int)
        } else {
            0
        }
    }

    /// The unsettled pending reward of `account` for `token`.
    pub open spec fn pending_of(self, account: AccountId, token: TokenId) -> int {
        Self::pending_for(
            self.settle_basis(account).shares,
            self.reward_debt_val(account, token),
            self.settle_global(account, token),
        )
    }

    /// Whether settling `account` against `token` would overflow.
    pub open spec fn settle_overflow_at(self, account: AccountId, token: TokenId) -> bool {
        let d = self.settle_basis(account);
        let paid = self.reward_debt_val(account, token);
        let global = self.settle_global(account, token);
        global > paid && (d.shares * (global - paid) > u128::MAX || self.reward_val(
            account,
            token,
        ) + self.pending_of(account, token) > u128::MAX)
    }

    /// Whether settling `account` would overflow on any asset.
    pub open spec fn settle_overflows(self, account: AccountId) -> bool {
        exists|k: u64| #[trigger]
            self.reward_per_share.m().contains_key(k) && self.settle_overflow_at(account, k)
    }

    /// Applies the epoch rule to an account's stored deposit record: a
    /// record of a past pool generation is reset to zero shares in the
    /// current generation.  Pending rewards of the old generation must have
    /// been credited beforehand; [`Self::settle_stability_rewards`] does
    /// both in order.
    pub(crate) fn ensure_deposit_epoch(&mut self, account_id: AccountId)
        requires
            old(self).stability_pool_deposits.wf(),
            shares_sum(old(self).stability_pool_deposits.entries@, old(self).stability_pool_epoch)
                == old(self).stability_pool_total_shares,
            forall|a: u64| #[trigger]
                old(self).stability_pool_deposits.m().contains_key(a) ==> old(self).stability_pool_deposits.m()[a].epoch <= old(self).stability_pool_epoch,
        ensures
            final(self).stability_pool_deposits.wf(),
            *final(self) == (Contract {
                stability_pool_deposits: final(self).stability_pool_deposits,
                ..*old(self)
            }),
            final(self).stability_pool_deposits.m() == old(self).stability_pool_deposits.m().insert(account_id, old(self).refreshed_deposit(account_id)),
            shares_sum(
                final(self).stability_pool_deposits.entries@,
                final(self).stability_pool_epoch,
            ) == final(self).stability_pool_total_shares,
            forall|a: u64| #[trigger]
                final(self).stability_pool_deposits.m().contains_key(a) ==> final(self).stability_pool_deposits.m()[a].epoch <= final(self).stability_pool_epoch,
    {
        let refreshed = match self.stability_pool_deposits.get(account_id) {
            Some(d) => {
                if d.epoch == self.stability_pool_epoch {
                    d
                } else {
                    StabilityDeposit { shares: 0, epoch: self.stability_pool_epoch }
                }
            },
            None => StabilityDeposit { shares: 0, epoch: self.stability_pool_epoch },
        };
        proof {
            if old(self).stability_pool_deposits.dom_has(account_id) {
                let i = old(self).stability_pool_deposits.idx_of(account_id);
                old(self).stability_pool_deposits.lemma_at(i);
            }
        }
        self.stability_pool_deposits.set(account_id, refreshed);
        proof {
            let s0 = *old(self);
            let sf = *self;
            if s0.stability_pool_deposits.dom_has(account_id) {
                let i = s0.stability_pool_deposits.idx_of(account_id);
                crate::sums::lemma_shares_sum_update(
                    s0.stability_pool_deposits.entries@,
                    i,
                    (account_id, refreshed),
                    s0.stability_pool_epoch,
                );
            } else {
                crate::sums::lemma_shares_sum_push(
                    s0.stability_pool_deposits.entries@,
                    (account_id, refreshed),
                    s0.stability_pool_epoch,
                );
            }
            assert forall|a: u64| #[trigger]
                sf.stability_pool_deposits.m().contains_key(
                    a,
                ) implies sf.stability_pool_deposits.m()[a].epoch
                <= sf.stability_pool_epoch by {
                if a != account_id {
                    assert(s0.stability_pool_deposits.m().contains_key(a));
                }
            }
        }
    }

    /// Settles an account's pending stability-pool rewards: for every asset
    /// whose accumulator moved past the account's snapshot, credits
    /// `shares * (rps - snapshot) / SCALE` to the claimable ledger, advances
    /// the snapshot, and applies the epoch rule to the deposit record.
    /// Settlement is idempotent: once settled, pending rewards are zero.
    pub(crate) fn settle_stability_rewards(&mut self, account_id: AccountId) -> (r: Result<
        (),
        CdpError,
    >)
        requires
            old(self).wf(),
        ensures
            final(self).wf(),
            *final(self) == (Contract {
                stability_pool_deposits: final(self).stability_pool_deposits,
                reward_debt: final(self).reward_debt,
                collateral_rewards: final(self).collateral_rewards,
                ..*old(self)
            }),
            match r {
                Ok(()) => {
                    &&& !old(self).settle_overflows(account_id)
                    &&& final(self).stability_pool_deposits.m() == old(self).stability_pool_deposits.m().insert(
                        account_id,
                        old(self).refreshed_deposit(account_id),
                    )
                    &&& forall|k: u64| #[trigger]
                        old(self).reward_per_share.m().contains_key(k) ==> final(self).reward_val(
                            account_id,
                            k,
                        ) == old(self).reward_val(account_id, k) + old(self).pending_of(
                            account_id,
                            k,
                        )
                    &&& forall|k: u64|
                        !old(self).reward_per_share.m().contains_key(k) ==> final(self).collateral_rewards.get_opt((account_id, k)) == old(self).collateral_rewards.get_opt((account_id, k))
                    &&& forall|k2: (u64, u64)|
                        k2.0 != account_id ==> final(self).collateral_rewards.get_opt(k2) == old(self).collateral_rewards.get_opt(k2)
                    &&& (old(self).settle_basis(account_id).shares > 0 ==> {
                        &&& forall|k: u64| #[trigger]
                            old(self).reward_per_share.m().contains_key(k) ==> final(self).reward_debt_val(account_id, k) == old(self).rps_val(k)
                        &&& forall|k: u64|
                            !old(self).reward_per_share.m().contains_key(k) ==> final(self).reward_debt.get_opt((account_id, k)) == old(self).reward_debt.get_opt(
                                (account_id, k),
                            )
                        &&& forall|k2: (u64, u64)|
                            k2.0 != account_id ==> final(self).reward_debt.get_opt(k2) == old(self).reward_debt.get_opt(k2)
                    })
                    &&& (old(self).settle_basis(account_id).shares == 0 ==> final(self).reward_debt
                        == old(self).reward_debt)
                },
                Err(e) => {
                    &&& e == CdpError::Overflow
                    &&& old(self).settle_overflows(account_id)
                    &&& *final(self) == *old(self)
                },
            },
    {
        let ghost s0 = *old(self);
        let basis = match self.stability_pool_deposits.get(account_id) {
            Some(d) => d,
            None => StabilityDeposit { shares: 0, epoch: self.stability_pool_epoch },
        };
        let n = self.reward_per_share.len();

        // First pass, read-only: the new claimable value per listed asset.
        // An overflow aborts before anything has changed.
        let mut new_rewards: Vec<(u64, u128)> = Vec::new();
        let mut i: usize = 0;
        while i < n
            invariant
                *self == s0,
                s0 == *old(self),
                s0.wf(),
                basis == s0.settle_basis(account_id),
                n == s0.reward_per_share.entries@.len(),
                i <= n,
                new_rewards@.len() == i,
                forall|j: int|
                    0 <= j < i ==> new_rewards@[j].0 == s0.reward_per_share.entries@[j].0,
                forall|j: int|
                    0 <= j < i ==> !s0.settle_overflow_at(
                        account_id,
                        s0.reward_per_share.entries@[j].0,
                    ),
                forall|j: int|
                    0 <= j < i ==> new_rewards@[j].1 == s0.reward_val(
                        account_id,
                        new_rewards@[j].0,
                    ) + s0.pending_of(account_id, new_rewards@[j].0),
            decreases n - i,
        {
            let token = self.reward_per_share.key_at(i);
            proof {
                self.reward_per_share.lemma_at(i as int);
            }
            // A deposit of the current generation settles against the live
            // accumulator; a stale one against its own generation's frozen
            // cutoff, so it earns nothing from later distributions.
            let global = if basis.epoch == self.stability_pool_epoch {
                self.reward_per_share.val_at(i)
            } else {
                match self.epoch_reward_cutoff.get(basis.epoch, token) {
                    Some(v) => v,
                    None => 0,
                }
            };
            proof {
                assert(global == s0.settle_global(account_id, token));
            }
            let paid = match self.reward_debt.get(account_id, token) {
                Some(v) => v,
                None => 0,
            };
            let pending: u128 = if global > paid {
                let delta = global - paid;
                match basis.shares.checked_mul(delta) {
                    Some(v) => v / REWARD_SCALE,
                    None => {
                        proof {
                            assert(s0.settle_overflow_at(account_id, token));
                            assert(s0.reward_per_share.m().contains_key(token));
                            assert(s0.settle_overflows(account_id));
                        }
                        return Err(CdpError::Overflow);
                    },
                }
            } else {
                0
            };
            let current = match self.collateral_rewards.get(account_id, token) {
                Some(v) => v,
                None => 0,
            };
            let updated = match current.checked_add(pending) {
                Some(v) => v,
                None => {
                    proof {
                        assert(s0.settle_overflow_at(account_id, token));
                        assert(s0.reward_per_share.m().contains_key(token));
                        assert(s0.settle_overflows(account_id));
                    }
                    return Err(CdpError::Overflow);
                },
            };
            new_rewards.push((token, updated));
            i = i + 1;
        }
        proof {
            assert(!s0.settle_overflows(account_id)) by {
                if s0.settle_overflows(account_id) {
                    let k = choose|k: u64| #[trigger]
                        s0.reward_per_share.m().contains_key(k) && s0.settle_overflow_at(
                            account_id,
                            k,
                        );
                    let j = s0.reward_per_share.idx_of(k);
                    assert(s0.reward_per_share.entries@[j].0 == k);
                    assert(!s0.settle_overflow_at(account_id, s0.reward_per_share.entries@[j].0));
                }
            }
        }

        // Second pass: commit the new claimable values.
        let mut j: usize = 0;
        while j < n
            invariant
                s0 == *old(self),
                s0.wf(),
                n == s0.reward_per_share.entries@.len(),
                new_rewards@.len() == n,
                j <= n,
                forall|jj: int|
                    0 <= jj < n ==> new_rewards@[jj].0 == s0.reward_per_share.entries@[jj].0,
                forall|jj: int|
                    0 <= jj < n ==> new_rewards@[jj].1 == s0.reward_val(
                        account_id,
                        new_rewards@[jj].0,
                    ) + s0.pending_of(account_id, new_rewards@[jj].0),
                self.collateral_rewards.wf(),
                *self == (Contract { collateral_rewards: self.collateral_rewards, ..s0 }),
                forall|jj: int|
                    0 <= jj < j ==> self.reward_val(account_id, new_rewards@[jj].0)
                        == new_rewards@[jj].1,
                forall|jj: int|
                    j <= jj < n ==> self.collateral_rewards.get_opt(
                        (account_id, new_rewards@[jj].0),
                    ) == s0.collateral_rewards.get_opt((account_id, new_rewards@[jj].0)),
                forall|k2: (u64, u64)|
                    k2.0 != account_id ==> self.collateral_rewards.get_opt(k2)
                        == s0.collateral_rewards.get_opt(k2),
                forall|k: u64|
                    !s0.reward_per_share.m().contains_key(k) ==> self.collateral_rewards.get_opt(
                        (account_id, k),
                    ) == s0.collateral_rewards.get_opt((account_id, k)),
                forall|k2: (u64, u64)| #[trigger]
                    self.collateral_rewards.m().contains_key(k2) ==> self.collateral_rewards.m()[k2]
                        > 0,
            decreases n - j,
        {
            let entry = new_rewards[j];
            proof {
                s0.reward_per_share.lemma_at(j as int);
            }
            if entry.1 > 0 {
                let ghost before = *self;
                self.collateral_rewards.set(account_id, entry.0, entry.1);
                proof {
                    assert forall|jj: int| 0 <= jj < j + 1 implies self.reward_val(
                        account_id,
                        new_rewards@[jj].0,
                    ) == new_rewards@[jj].1 by {
                        if jj < j {
                            assert(s0.reward_per_share.entries@[jj].0
                                != s0.reward_per_share.entries@[j as int].0);
                        }
                    }
                    assert forall|jj: int| j + 1 <= jj < n implies self.collateral_rewards.get_opt(
                        (account_id, new_rewards@[jj].0),
                    ) == s0.collateral_rewards.get_opt((account_id, new_rewards@[jj].0)) by {
                        assert(s0.reward_per_share.entries@[jj].0
                            != s0.reward_per_share.entries@[j as int].0);
                        assert(before.collateral_rewards.get_opt((account_id, new_rewards@[jj].0))
                            == s0.collateral_rewards.get_opt((account_id, new_rewards@[jj].0)));
                    }
                }
            } else {
                proof {
                    assert(self.reward_val(account_id, new_rewards@[j as int].0)
                        == new_rewards@[j as int].1);
                }
            }
            j = j + 1;
        }
        let ghost s1 = *self;

        // Third pass: advance the snapshots of a share-holding deposit.
        if basis.shares > 0 {
            let mut p: usize = 0;
            while p < n
                invariant
                    s0 == *old(self),
                    s0.wf(),
                    n == s0.reward_per_share.entries@.len(),
                    p <= n,
                    self.reward_debt.wf(),
                    *self == (Contract { reward_debt: self.reward_debt, ..s1 }),
                    s1.reward_per_share == s0.reward_per_share,
                    s1.reward_debt == s0.reward_debt,
                    forall|pp: int|
                        0 <= pp < p ==> self.reward_debt_val(
                            account_id,
                            s0.reward_per_share.entries@[pp].0,
                        ) == s0.reward_per_share.entries@[pp].1,
                    forall|k: u64|
                        !s0.reward_per_share.m().contains_key(k) ==> self.reward_debt.get_opt(
                            (account_id, k),
                        ) == s0.reward_debt.get_opt((account_id, k)),
                    forall|k2: (u64, u64)|
                        k2.0 != account_id ==> self.reward_debt.get_opt(k2)
                            == s0.reward_debt.get_opt(k2),
                decreases n - p,
            {
                let token = self.reward_per_share.key_at(p);
                let global = self.reward_per_share.val_at(p);
                proof {
                    s0.reward_per_share.lemma_at(p as int);
                }
                self.reward_debt.set(account_id, token, global);
                proof {
                    assert forall|pp: int| 0 <= pp < p + 1 implies self.reward_debt_val(
                        account_id,
                        s0.reward_per_share.entries@[pp].0,
                    ) == s0.reward_per_share.entries@[pp].1 by {
                        if pp < p {
                            assert(s0.reward_per_share.entries@[pp].0
                                != s0.reward_per_share.entries@[p as int].0);
                        }
                    }
                }
                p = p + 1;
            }
        }
        let ghost s2 = *self;

        // Apply the epoch rule and persist the deposit record.
        self.ensure_deposit_epoch(account_id);
        proof {
            let sf = *self;
            assert(sf.refreshed_deposit(account_id) == s0.refreshed_deposit(account_id));
            assert forall|x: u64| sf.total_debt_val(x) == debt_sum(sf.troves.entries@, x) by {
                assert(s0.total_debt_val(x) == debt_sum(s0.troves.entries@, x));
            }
            assert forall|x: u64| #[trigger]
                sf.total_debt.m().contains_key(x) implies sf.total_debt.m()[x] > 0 by {
                assert(s0.total_debt.m().contains_key(x));
            }
            assert forall|x: u64| #[trigger]
                sf.configs.m().contains_key(x) implies sf.total_debt_val(x)
                <= sf.configs.m()[x].debt_ceiling by {
                assert(s0.configs.m().contains_key(x));
            }
            Self::lemma_wf_from_parts(s0, sf);
            assert forall|k: u64| #[trigger]
                s0.reward_per_share.m().contains_key(k) implies sf.reward_val(account_id, k)
                == s0.reward_val(account_id, k) + s0.pending_of(account_id, k) by {
                let idx = s0.reward_per_share.idx_of(k);
                s0.reward_per_share.lemma_at(idx);
                assert(0 <= idx < n);
                assert(new_rewards@[idx].0 == k);
                assert(s1.collateral_rewards == sf.collateral_rewards);
                assert(s1.reward_val(account_id, new_rewards@[idx].0) == new_rewards@[idx].1);
                assert(new_rewards@[idx].1 == s0.reward_val(account_id, k) + s0.pending_of(
                    account_id,
                    k,
                ));
            }
            if s0.settle_basis(account_id).shares > 0 {
                assert forall|k: u64| #[trigger]
                    s0.reward_per_share.m().contains_key(k) implies sf.reward_debt_val(
                    account_id,
                    k,
                ) == s0.rps_val(k) by {
                    let idx = s0.reward_per_share.idx_of(k);
                    s0.reward_per_share.lemma_at(idx);
                }
            }
        }
        Ok(())
    }

    /// Snapshots every asset's current accumulator value into an account's
    /// reward-debt records, so the account owes nothing for rewards
    /// distributed before this point.
    pub(crate) fn sync_reward_debt_snapshot(&mut self, account_id: AccountId)
        requires
            old(self).reward_debt.wf(),
            old(self).reward_per_share.wf(),
        ensures
            final(self).reward_debt.wf(),
            *final(self) == (Contract { reward_debt: final(self).reward_debt, ..*old(self) }),
            forall|k: u64| #[trigger]
                old(self).reward_per_share.m().contains_key(k) ==> final(self).reward_debt_val(
                    account_id,
                    k,
                ) == old(self).rps_val(k),
            forall|k: u64|
                !old(self).reward_per_share.m().contains_key(k) ==> final(self).reward_debt.get_opt(
                    (account_id, k),
                ) == old(self).reward_debt.get_opt((account_id, k)),
            forall|k2: (u64, u64)|
                k2.0 != account_id ==> final(self).reward_debt.get_opt(k2) == old(self).reward_debt.get_opt(k2),
    {
        let ghost s0 = *old(self);
        let n = self.reward_per_share.len();
        let mut p: usize = 0;
        while p < n
            invariant
                s0 == *old(self),
                s0.reward_debt.wf(),
                s0.reward_per_share.wf(),
                n == s0.reward_per_share.entries@.len(),
                p <= n,
                self.reward_debt.wf(),
                *self == (Contract { reward_debt: self.reward_debt, ..s0 }),
                forall|pp: int|
                    0 <= pp < p ==> self.reward_debt_val(
                        account_id,
                        s0.reward_per_share.entries@[pp].0,
                    ) == s0.reward_per_share.entries@[pp].1,
                forall|k: u64|
                    !s0.reward_per_share.m().contains_key(k) ==> self.reward_debt.get_opt(
                        (account_id, k),
                    ) == s0.reward_debt.get_opt((account_id, k)),
                forall|k2: (u64, u64)|
                    k2.0 != account_id ==> self.reward_debt.get_opt(k2) == s0.reward_debt.get_opt(
                        k2,
                    ),
            decreases n - p,
        {
            let token = self.reward_per_share.key_at(p);
            let global = self.reward_per_share.val_at(p);
            proof {
                s0.reward_per_share.lemma_at(p as int);
            }
            self.reward_debt.set(account_id, token, global);
            proof {
                assert forall|pp: int| 0 <= pp < p + 1 implies self.reward_debt_val(
                    account_id,
                    s0.reward_per_share.entries@[pp].0,
                ) == s0.reward_per_share.entries@[pp].1 by {
                    if pp < p {
                        assert(s0.reward_per_share.entries@[pp].0
                            != s0.reward_per_share.entries@[p as int].0);
                    }
                }
            }
            p = p + 1;
        }
        proof {
            assert forall|k: u64| #[trigger]
                s0.reward_per_share.m().contains_key(k) implies self.reward_debt_val(account_id, k)
                == s0.rps_val(k) by {
                let idx = s0.reward_per_share.idx_of(k);
                s0.reward_per_share.lemma_at(idx);
            }
        }
    }

    /// The stablecoin value of an account's pool deposit, zero for a stale
    /// or missing record.
    pub open spec fn pool_deposit_value(self, account: AccountId) -> int {
        match self.deposit_of(account) {
            Some(d) => if d.epoch == self.stability_pool_epoch {
                d.amount_spec(self.stability_pool_total_nusd, self.stability_pool_total_shares)
            } else {
                0
            },
            None => 0,
        }
    }

    /// The current stablecoin value of an account's stability-pool deposit.
    /// A record of a past pool generation is worth nothing.
    pub fn get_stability_pool_deposit(&self, account_id: AccountId) -> (r: Result<
        Balance,
        CdpError,
    >)
        requires
            self.wf(),
        ensures
            match r {
                Ok(v) => v == self.pool_deposit_value(account_id),
                Err(e) => {
                    &&& e == CdpError::Overflow
                    &&& self.deposit_of(account_id) is Some
                    &&& self.deposit_of(account_id).unwrap().epoch == self.stability_pool_epoch
                    &&& self.deposit_of(account_id).unwrap().shares
                        * self.stability_pool_total_nusd > u128::MAX
                },
            },
    {
        match self.stability_pool_deposits.get(account_id) {
            Some(d) => {
                if d.epoch == self.stability_pool_epoch {
                    d.amount(self.stability_pool_total_nusd, self.stability_pool_total_shares)
                } else {
                    Ok(0)
                }
            },
            None => Ok(0),
        }
    }

    /// An account's claimable collateral for one asset, including the
    /// still-unsettled pending share of past distributions.
    pub fn get_claimable_collateral_reward(
        &self,
        account_id: AccountId,
        collateral_id: TokenId,
    ) -> (r: Result<Balance, CdpError>)
        requires
            self.wf(),
        ensures
            match r {
                Ok(v) => v == self.reward_val(account_id, collateral_id) + self.pending_of(
                    account_id,
                    collateral_id,
                ) && !self.settle_overflow_at(account_id, collateral_id),
                Err(e) => e == CdpError::Overflow && self.settle_overflow_at(
                    account_id,
                    collateral_id,
                ),
            },
    {
        let total = match self.collateral_rewards.get(account_id, collateral_id) {
            Some(v) => v,
            None => 0,
        };
        let deposit = match self.stability_pool_deposits.get(account_id) {
            Some(d) => d,
            None => {
                return Ok(total);
            },
        };
        // A stale deposit's pending share is frozen at its generation's
        // depletion cutoff.
        let global = if deposit.epoch == self.stability_pool_epoch {
            match self.reward_per_share.get(collateral_id) {
                Some(v) => v,
                None => 0,
            }
        } else {
            match self.epoch_reward_cutoff.get(deposit.epoch, collateral_id) {
                Some(v) => v,
                None => 0,
            }
        };
        let paid = match self.reward_debt.get(account_id, collateral_id) {
            Some(v) => v,
            None => 0,
        };
        if global > paid {
            let scaled = match deposit.shares.checked_mul(global - paid) {
                Some(v) => v,
                None => {
                    return Err(CdpError::Overflow);
                },
            };
            let pending = scaled / REWARD_SCALE;
            match total.checked_add(pending) {
                Some(v) => Ok(v),
                None => Err(CdpError::Overflow),
            }
        } else {
            Ok(total)
        }
    }
}

/// Bound on the shares a withdrawal burns: a request within the deposit's
/// value converts back to at most the deposit's shares.
pub proof fn lemma_withdraw_shares_bound(requested: int, s: int, p: int, cap: int)
    requires
        0 < p,
        0 < cap,
        0 <= s,
        0 <= requested,
        requested <= s * p / cap,
    ensures
        requested * cap / p <= s,
{
    vstd::arithmetic::mul::lemma_mul_inequality(requested, s * p / cap, cap);
    vstd::arithmetic::div_mod::lemma_fundamental_div_mod(s * p, cap);
    assert((s * p / cap) * cap <= s * p);
    assert(requested * cap <= s * p);
    vstd::arithmetic::div_mod::lemma_div_is_ordered(requested * cap, s * p, p);
    vstd::arithmetic::div_mod::lemma_div_multiples_vanish(s, p);
    vstd::arithmetic::mul::lemma_mul_is_commutative(s, p);
    assert(s * p / p == s);
}

/// A deposit's value never exceeds the pool's whole balance.
pub proof fn lemma_available_le_pool(s: int, cap: int, p: int)
    requires
        0 <= s <= cap,
        0 < cap,
        0 <= p,
    ensures
        s * p / cap <= p,
{
    vstd::arithmetic::mul::lemma_mul_inequality(s, cap, p);
    vstd::arithmetic::div_mod::lemma_div_is_ordered(s * p, cap * p, cap);
    vstd::arithmetic::div_mod::lemma_div_multiples_vanish(p, cap);
    vstd::arithmetic::mul::lemma_mul_is_commutative(cap, p);
    assert(cap * p / cap == p);
}

impl Contract {
    /// Why `deposit_to_stability_pool` would be rejected, if it would be.
    pub open spec fn deposit_pool_err(self, caller: AccountId, amount: Balance) -> Option<
        CdpError,
    > {
        if amount == 0 {
            Some(CdpError::InvalidAmount)
        } else if self.settle_overflows(caller) {
            Some(CdpError::Overflow)
        } else if self.stability_pool_total_shares != 0 && self.stability_pool_total_nusd != 0
            && amount * self.stability_pool_total_shares > u128::MAX {
            Some(CdpError::Overflow)
        } else {
            let minted = self.shares_from_amount_spec(amount);
            if minted == 0 {
                Some(CdpError::DepositTooSmall)
            } else if self.refreshed_deposit(caller).shares + minted > u128::MAX {
                Some(CdpError::Overflow)
            } else if self.stability_pool_total_shares + minted > u128::MAX {
                Some(CdpError::Overflow)
            } else if self.stability_pool_total_nusd + amount > u128::MAX {
                Some(CdpError::Overflow)
            } else {
                None
            }
        }
    }

    /// Moves `amount` stablecoin from the caller into the pool: settles the
    /// caller's pending rewards, applies the epoch rule, mints shares at
    /// the current share price, and snapshots the reward accumulators so
    /// the deposit earns nothing from past distributions.  On success the
    /// caller owes the ledger a burn of `amount` from the depositor and a
    /// matching credit to the pool's custodial balance.
    pub fn deposit_to_stability_pool(&mut self, caller: AccountId, amount: Balance) -> (r: Result<
        (),
        CdpError,
    >)
        requires
            old(self).wf(),
        ensures
            final(self).wf(),
            match r {
                Ok(()) => {
                    let minted = old(self).shares_from_amount_spec(amount);
                    let d1 = StabilityDeposit {
                        shares: (old(self).refreshed_deposit(caller).shares + minted) as u128,
                        epoch: old(self).stability_pool_epoch,
                    };
                    &&& old(self).deposit_pool_err(caller, amount) is None
                    &&& final(self).stability_pool_deposits.m() == old(self).stability_pool_deposits.m().insert(caller, d1)
                    &&& final(self).stability_pool_total_shares == old(self).stability_pool_total_shares + minted
                    &&& final(self).stability_pool_total_nusd == old(self).stability_pool_total_nusd + amount
                    &&& final(self).stability_pool_epoch == old(self).stability_pool_epoch
                    &&& forall|k: u64| #[trigger]
                        old(self).reward_per_share.m().contains_key(k) ==> final(self).reward_debt_val(caller, k) == old(self).rps_val(k)
                    &&& forall|k: u64| #[trigger]
                        old(self).reward_per_share.m().contains_key(k) ==> final(self).reward_val(
                            caller,
                            k,
                        ) == old(self).reward_val(caller, k) + old(self).pending_of(caller, k)
                    &&& forall|k2: (u64, u64)|
                        k2.0 != caller ==> final(self).collateral_rewards.get_opt(k2) == old(self).collateral_rewards.get_opt(k2)
                    &&& forall|k: u64|
                        !old(self).reward_per_share.m().contains_key(k) ==> final(self).collateral_rewards.get_opt((caller, k)) == old(self).collateral_rewards.get_opt((caller, k))
                    &&& forall|k2: (u64, u64)|
                        k2.0 != caller ==> final(self).reward_debt.get_opt(k2) == old(self).reward_debt.get_opt(k2)
                    &&& forall|k: u64|
                        !old(self).reward_per_share.m().contains_key(k) ==> final(self).reward_debt.get_opt((caller, k)) == old(self).reward_debt.get_opt(
                            (caller, k),
                        )
                    &&& Self::same_admin(*old(self), *final(self))
                    &&& Self::same_rps(*old(self), *final(self))
                    &&& Self::same_cutoffs(*old(self), *final(self))
                    &&& Self::frame_pool_side(*old(self), *final(self))
                },
                Err(e) => old(self).deposit_pool_err(caller, amount) == Some(e) && *final(self)
                    == *old(self),
            },
    {
        if amount == 0 {
            return Err(CdpError::InvalidAmount);
        }
        let ghost s0 = *old(self);
        let mut work = self.duplicate();
        let ghost w0 = work;
        proof {
            assert(w0.settle_basis(caller) == s0.settle_basis(caller));
            assert(w0.refreshed_deposit(caller) == s0.refreshed_deposit(caller));
            assert forall|k: u64| w0.pending_of(caller, k) == s0.pending_of(caller, k) by {}
            assert forall|k: u64|
                w0.settle_overflow_at(caller, k) == s0.settle_overflow_at(caller, k) by {}
            assert(w0.settle_overflows(caller) == s0.settle_overflows(caller)) by {
                if w0.settle_overflows(caller) {
                    let k = choose|k: u64| #[trigger]
                        w0.reward_per_share.m().contains_key(k) && w0.settle_overflow_at(
                            caller,
                            k,
                        );
                    assert(s0.reward_per_share.m().contains_key(k) && s0.settle_overflow_at(
                        caller,
                        k,
                    ));
                }
                if s0.settle_overflows(caller) {
                    let k = choose|k: u64| #[trigger]
                        s0.reward_per_share.m().contains_key(k) && s0.settle_overflow_at(caller, k);
                    assert(w0.reward_per_share.m().contains_key(k) && w0.settle_overflow_at(
                        caller,
                        k,
                    ));
                }
            }
        }
        let settle_result = work.settle_stability_rewards(caller);
        match settle_result {
            Ok(()) => (),
            Err(e) => {
                return Err(e);
            },
        }
        let minted = match work.shares_from_amount(amount) {
            Ok(v) => v,
            Err(e) => {
                return Err(e);
            },
        };
        if minted == 0 {
            return Err(CdpError::DepositTooSmall);
        }
        let deposit = match work.stability_pool_deposits.get(caller) {
            Some(d) => d,
            None => {
                proof {
                    assert(false);
                }
                StabilityDeposit { shares: 0, epoch: 0 }
            },
        };
        let new_shares = match deposit.shares.checked_add(minted) {
            Some(v) => v,
            None => {
                return Err(CdpError::Overflow);
            },
        };
        let new_total_shares = match work.stability_pool_total_shares.checked_add(minted) {
            Some(v) => v,
            None => {
                return Err(CdpError::Overflow);
            },
        };
        let new_total_nusd = match work.stability_pool_total_nusd.checked_add(amount) {
            Some(v) => v,
            None => {
                return Err(CdpError::Overflow);
            },
        };
        let ghost w1 = work;
        let updated = StabilityDeposit { shares: new_shares, epoch: work.stability_pool_epoch };
        proof {
            assert(w1.stability_pool_deposits.m().contains_key(caller));
            let i = w1.stability_pool_deposits.idx_of(caller);
            w1.stability_pool_deposits.lemma_at(i);
        }
        work.stability_pool_deposits.set(caller, updated);
        work.stability_pool_total_shares = new_total_shares;
        work.stability_pool_total_nusd = new_total_nusd;
        work.sync_reward_debt_snapshot(caller);
        proof {
            let sf = work;
            let i = w1.stability_pool_deposits.idx_of(caller);
            crate::sums::lemma_shares_sum_update(
                w1.stability_pool_deposits.entries@,
                i,
                (caller, updated),
                w1.stability_pool_epoch,
            );
            assert(shares_sum(sf.stability_pool_deposits.entries@, sf.stability_pool_epoch)
                == sf.stability_pool_total_shares);
            assert forall|a: u64| #[trigger]
                sf.stability_pool_deposits.m().contains_key(
                    a,
                ) implies sf.stability_pool_deposits.m()[a].epoch <= sf.stability_pool_epoch by {
                if a != caller {
                    assert(w1.stability_pool_deposits.m().contains_key(a));
                }
            }
            assert forall|x: u64| sf.total_debt_val(x) == debt_sum(sf.troves.entries@, x) by {
                assert(s0.total_debt_val(x) == debt_sum(s0.troves.entries@, x));
            }
            assert forall|x: u64| #[trigger]
                sf.total_debt.m().contains_key(x) implies sf.total_debt.m()[x] > 0 by {
                assert(s0.total_debt.m().contains_key(x));
            }
            assert forall|x: u64| #[trigger]
                sf.configs.m().contains_key(x) implies sf.total_debt_val(x)
                <= sf.configs.m()[x].debt_ceiling by {
                assert(s0.configs.m().contains_key(x));
            }
            assert forall|k2: (u64, u64)| #[trigger]
                sf.collateral_rewards.m().contains_key(k2) implies sf.collateral_rewards.m()[k2]
                > 0 by {
                assert(w1.collateral_rewards.m().contains_key(k2));
            }
            Self::lemma_wf_from_parts(s0, sf);
            assert(sf.stability_pool_deposits.m() =~= s0.stability_pool_deposits.m().insert(
                caller,
                updated,
            ));
        }
        *self = work;
        Ok(())
    }

    /// Why `withdraw_from_stability_pool` would be rejected, if it would
    /// be.
    pub open spec fn withdraw_pool_err(self, caller: AccountId, amount: Option<Balance>) -> Option<
        CdpError,
    > {
        if self.settle_overflows(caller) {
            Some(CdpError::Overflow)
        } else {
            let d = self.refreshed_deposit(caller);
            if d.shares == 0 {
                Some(CdpError::NothingDeposited)
            } else if d.shares * self.stability_pool_total_nusd > u128::MAX {
                Some(CdpError::Overflow)
            } else {
                let available = d.amount_spec(
                    self.stability_pool_total_nusd,
                    self.stability_pool_total_shares,
                );
                if available == 0 {
                    Some(CdpError::PoolDepleted)
                } else {
                    let requested: int = match amount {
                        Some(v) => v as int,
                        None => available,
                    };
                    if requested == 0 {
                        Some(CdpError::InvalidAmount)
                    } else if requested > available {
                        Some(CdpError::InsufficientBalance)
                    } else if requested * self.stability_pool_total_shares > u128::MAX {
                        Some(CdpError::Overflow)
                    } else if requested * self.stability_pool_total_shares
                        / (self.stability_pool_total_nusd as int) == 0 {
                        Some(CdpError::WithdrawTooSmall)
                    } else {
                        None
                    }
                }
            }
        }
    }

    /// Returns pooled stablecoin to the caller: settles rewards, applies
    /// the epoch rule, converts the requested amount (or, with none given,
    /// the deposit's whole value) back to shares at the current price, and
    /// burns them.  On success the returned amount is owed back to the
    /// caller from the pool's custodial balance.
    pub fn withdraw_from_stability_pool(&mut self, caller: AccountId, amount: Option<Balance>) -> (
        r: Result<Balance, CdpError>)
        requires
            old(self).wf(),
        ensures
            final(self).wf(),
            match r {
                Ok(v) => {
                    let d = old(self).refreshed_deposit(caller);
                    let available = d.amount_spec(
                        old(self).stability_pool_total_nusd,
                        old(self).stability_pool_total_shares,
                    );
                    let requested: int = match amount {
                        Some(req) => req as int,
                        None => available,
                    };
                    let burned = requested * old(self).stability_pool_total_shares / (old(self).stability_pool_total_nusd as int);
                    &&& old(self).withdraw_pool_err(caller, amount) is None
                    &&& v == requested
                    &&& burned <= d.shares
                    &&& final(self).stability_pool_deposits.m() == old(self).stability_pool_deposits.m().insert(
                        caller,
                        StabilityDeposit {
                            shares: (d.shares - burned) as u128,
                            epoch: old(self).stability_pool_epoch,
                        },
                    )
                    &&& final(self).stability_pool_total_shares == old(self).stability_pool_total_shares - burned
                    &&& final(self).stability_pool_total_nusd == old(self).stability_pool_total_nusd - requested
                    &&& final(self).stability_pool_epoch == old(self).stability_pool_epoch
                    &&& forall|k: u64| #[trigger]
                        old(self).reward_per_share.m().contains_key(k) ==> final(self).reward_debt_val(caller, k) == old(self).rps_val(k)
                    &&& forall|k: u64| #[trigger]
                        old(self).reward_per_share.m().contains_key(k) ==> final(self).reward_val(
                            caller,
                            k,
                        ) == old(self).reward_val(caller, k) + old(self).pending_of(caller, k)
                    &&& forall|k2: (u64, u64)|
                        k2.0 != caller ==> final(self).collateral_rewards.get_opt(k2) == old(self).collateral_rewards.get_opt(k2)
                    &&& forall|k: u64|
                        !old(self).reward_per_share.m().contains_key(k) ==> final(self).collateral_rewards.get_opt((caller, k)) == old(self).collateral_rewards.get_opt((caller, k))
                    &&& forall|k2: (u64, u64)|
                        k2.0 != caller ==> final(self).reward_debt.get_opt(k2) == old(self).reward_debt.get_opt(k2)
                    &&& forall|k: u64|
                        !old(self).reward_per_share.m().contains_key(k) ==> final(self).reward_debt.get_opt((caller, k)) == old(self).reward_debt.get_opt(
                            (caller, k),
                        )
                    &&& Self::same_admin(*old(self), *final(self))
                    &&& Self::same_rps(*old(self), *final(self))
                    &&& Self::same_cutoffs(*old(self), *final(self))
                    &&& Self::frame_pool_side(*old(self), *final(self))
                },
                Err(e) => old(self).withdraw_pool_err(caller, amount) == Some(e) && *final(self)
                    == *old(self),
            },
    {
        let ghost s0 = *old(self);
        let mut work = self.duplicate();
        let ghost w0 = work;
        proof {
            assert(w0.settle_basis(caller) == s0.settle_basis(caller));
            assert(w0.refreshed_deposit(caller) == s0.refreshed_deposit(caller));
            assert forall|k: u64| w0.pending_of(caller, k) == s0.pending_of(caller, k) by {}
            assert forall|k: u64|
                w0.settle_overflow_at(caller, k) == s0.settle_overflow_at(caller, k) by {}
            assert(w0.settle_overflows(caller) == s0.settle_overflows(caller)) by {
                if w0.settle_overflows(caller) {
                    let k = choose|k: u64| #[trigger]
                        w0.reward_per_share.m().contains_key(k) && w0.settle_overflow_at(
                            caller,
                            k,
                        );
                    assert(s0.reward_per_share.m().contains_key(k) && s0.settle_overflow_at(
                        caller,
                        k,
                    ));
                }
                if s0.settle_overflows(caller) {
                    let k = choose|k: u64| #[trigger]
                        s0.reward_per_share.m().contains_key(k) && s0.settle_overflow_at(caller, k);
                    assert(w0.reward_per_share.m().contains_key(k) && w0.settle_overflow_at(
                        caller,
                        k,
                    ));
                }
            }
        }
        match work.settle_stability_rewards(caller) {
            Ok(()) => (),
            Err(e) => {
                return Err(e);
            },
        }
        let deposit = match work.stability_pool_deposits.get(caller) {
            Some(d) => d,
            None => {
                proof {
                    assert(false);
                }
                StabilityDeposit { shares: 0, epoch: 0 }
            },
        };
        if deposit.shares == 0 {
            return Err(CdpError::NothingDeposited);
        }
        proof {
            assert(work.stability_pool_deposits.m().contains_key(caller));
            let i = work.stability_pool_deposits.idx_of(caller);
            work.stability_pool_deposits.lemma_at(i);
            crate::sums::lemma_shares_sum_bound(
                work.stability_pool_deposits.entries@,
                i,
                work.stability_pool_epoch,
            );
            assert(deposit.shares <= work.stability_pool_total_shares);
        }
        let available = match deposit.amount(
            work.stability_pool_total_nusd,
            work.stability_pool_total_shares,
        ) {
            Ok(v) => v,
            Err(e) => {
                return Err(e);
            },
        };
        if available == 0 {
            return Err(CdpError::PoolDepleted);
        }
        let requested = match amount {
            Some(v) => v,
            None => available,
        };
        if requested == 0 {
            return Err(CdpError::InvalidAmount);
        }
        if requested > available {
            return Err(CdpError::InsufficientBalance);
        }
        let burned = match work.shares_for_withdraw(requested) {
            Ok(v) => v,
            Err(e) => {
                return Err(e);
            },
        };
        if burned == 0 {
            return Err(CdpError::WithdrawTooSmall);
        }
        let ghost w1 = work;
        proof {
            let sh = deposit.shares as int;
            let cap = w1.stability_pool_total_shares as int;
            let pool = w1.stability_pool_total_nusd as int;
            lemma_withdraw_shares_bound(requested as int, sh, pool, cap);
            assert(w1.stability_pool_deposits.m().contains_key(caller));
            let i = w1.stability_pool_deposits.idx_of(caller);
            w1.stability_pool_deposits.lemma_at(i);
            crate::sums::lemma_shares_sum_bound(
                w1.stability_pool_deposits.entries@,
                i,
                w1.stability_pool_epoch,
            );
            assert(deposit.shares <= w1.stability_pool_total_shares);
            lemma_available_le_pool(sh, cap, pool);
            assert(requested <= w1.stability_pool_total_nusd);
        }
        let updated = StabilityDeposit {
            shares: deposit.shares - burned,
            epoch: work.stability_pool_epoch,
        };
        work.stability_pool_deposits.set(caller, updated);
        work.stability_pool_total_shares = work.stability_pool_total_shares - burned;
        work.stability_pool_total_nusd = work.stability_pool_total_nusd - requested;
        proof {
            let sf = work;
            let i = w1.stability_pool_deposits.idx_of(caller);
            crate::sums::lemma_shares_sum_update(
                w1.stability_pool_deposits.entries@,
                i,
                (caller, updated),
                w1.stability_pool_epoch,
            );
            assert(shares_sum(sf.stability_pool_deposits.entries@, sf.stability_pool_epoch)
                == sf.stability_pool_total_shares);
            assert forall|a: u64| #[trigger]
                sf.stability_pool_deposits.m().contains_key(
                    a,
                ) implies sf.stability_pool_deposits.m()[a].epoch <= sf.stability_pool_epoch by {
                if a != caller {
                    assert(w1.stability_pool_deposits.m().contains_key(a));
                }
            }
            assert forall|x: u64| sf.total_debt_val(x) == debt_sum(sf.troves.entries@, x) by {
                assert(s0.total_debt_val(x) == debt_sum(s0.troves.entries@, x));
            }
            assert forall|x: u64| #[trigger]
                sf.total_debt.m().contains_key(x) implies sf.total_debt.m()[x] > 0 by {
                assert(s0.total_debt.m().contains_key(x));
            }
            assert forall|x: u64| #[trigger]
                sf.configs.m().contains_key(x) implies sf.total_debt_val(x)
                <= sf.configs.m()[x].debt_ceiling by {
                assert(s0.configs.m().contains_key(x));
            }
            assert forall|k2: (u64, u64)| #[trigger]
                sf.collateral_rewards.m().contains_key(k2) implies sf.collateral_rewards.m()[k2]
                > 0 by {
                assert(w1.collateral_rewards.m().contains_key(k2));
            }
            Self::lemma_wf_from_parts(s0, sf);
            assert(sf.stability_pool_deposits.m() =~= s0.stability_pool_deposits.m().insert(
                caller,
                updated,
            ));
        }
        *self = work;
        Ok(requested)
    }
}

} // verus!
