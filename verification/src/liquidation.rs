//! The liquidation engine.
//!
//! One call processes a batch of candidate owners for one collateral
//! asset.  Per trove: skip if missing, debt-free or healthy; otherwise the
//! stability pool must cover the whole debt (liquidation is all-or-nothing
//! per trove).  The penalty share of the collateral goes to the protocol
//! owner, the rest into the pool's reward accumulator; the debt is burned
//! from the pool and the trove removed.  The whole batch is
//! all-or-nothing: an arithmetic failure or an underfunded pool rejects
//! the call with no state change.
//!
//! The batch's meaning is pinned by a fold of [`liq_step`] over the owner
//! list, acting on the [`LiqModel`] projection of the state.

use vstd::prelude::*;

use crate::contract::Contract;
use crate::errors::CdpError;
use crate::math::{ratio_overflows, ratio_spec, BPS_DENOMINATOR, REWARD_SCALE};
use crate::sums::{debt_sum, lemma_debt_sum_bound, lemma_debt_sum_remove};
use crate::types::{AccountId, CollateralConfig, PriceFeed, TokenId, Trove};

verus! {

/// The slice of engine state one liquidation batch acts on: the troves,
/// and the asset's debt total, accumulator value and protocol-owner
/// reward, along with the pool's scalars.
pub ghost struct LiqModel {
    pub troves: Map<(u64, u64), Trove>,
    pub total_debt: int,
    pub rps: int,
    pub owner_reward: int,
    pub pool_nusd: int,
    pub pool_shares: int,
    pub epoch: int,
}

/// Distributing `amount` seized collateral: into the accumulator, or to
/// the protocol owner when no shares are outstanding.
pub open spec fn liq_accrue(m: LiqModel, amount: int) -> Result<LiqModel, CdpError> {
    if amount == 0 {
        Ok(m)
    } else if m.pool_shares == 0 {
        if m.owner_reward + amount > u128::MAX {
            Err(CdpError::Overflow)
        } else {
            Ok(LiqModel { owner_reward: m.owner_reward + amount, ..m })
        }
    } else {
        if amount * REWARD_SCALE > u128::MAX {
            Err(CdpError::Overflow)
        } else {
            let delta = amount * REWARD_SCALE / m.pool_shares;
            if m.rps + delta > u128::MAX {
                Err(CdpError::Overflow)
            } else {
                Ok(LiqModel { rps: m.rps + delta, ..m })
            }
        }
    }
}

/// Crediting the liquidation penalty to the protocol owner.
pub open spec fn liq_penalty_credit(m: LiqModel, penalty: int) -> Result<LiqModel, CdpError> {
    if penalty == 0 {
        Ok(m)
    } else if m.owner_reward + penalty > u128::MAX {
        Err(CdpError::Overflow)
    } else {
        Ok(LiqModel { owner_reward: m.owner_reward + penalty, ..m })
    }
}

/// Burning the absorbed debt from the pool; draining it resets the share
/// basis and advances the epoch.
pub open spec fn liq_burn(m: LiqModel, debt: int) -> Result<LiqModel, CdpError> {
    if m.pool_nusd - debt == 0 {
        if m.epoch == u64::MAX {
            Err(CdpError::Overflow)
        } else {
            Ok(LiqModel { pool_nusd: 0, pool_shares: 0, epoch: m.epoch + 1, ..m })
        }
    } else {
        Ok(LiqModel { pool_nusd: m.pool_nusd - debt, ..m })
    }
}

/// One owner's liquidation: the state afterwards and whether the trove was
/// actually liquidated.  A missing, debt-free or healthy trove is skipped,
/// not an error.
pub open spec fn liq_step(
    m: LiqModel,
    owner: AccountId,
    collateral_id: TokenId,
    feed: PriceFeed,
    cfg: CollateralConfig,
) -> Result<(LiqModel, bool), CdpError> {
    if !m.troves.contains_key((owner, collateral_id)) {
        Ok((m, false))
    } else {
        let t = m.troves[(owner, collateral_id)];
        if t.debt_amount == 0 {
            Ok((m, false))
        } else if ratio_overflows(t.collateral_amount, t.debt_amount, feed.price, feed.decimals) {
            Err(CdpError::Overflow)
        } else if ratio_spec(t.collateral_amount, t.debt_amount, feed.price, feed.decimals)
            >= cfg.min_collateral_ratio_bps {
            Ok((m, false))
        } else if m.pool_nusd < t.debt_amount {
            Err(CdpError::InsufficientPoolFunds)
        } else if t.collateral_amount * cfg.liquidation_penalty_bps > u128::MAX {
            Err(CdpError::Overflow)
        } else {
            let penalty = t.collateral_amount * cfg.liquidation_penalty_bps / (
            BPS_DENOMINATOR as int);
            if penalty > t.collateral_amount {
                Err(CdpError::Overflow)
            } else {
                let distributable = t.collateral_amount - penalty;
                match liq_accrue(m, distributable) {
                    Err(e) => Err(e),
                    Ok(m1) => match liq_penalty_credit(m1, penalty) {
                        Err(e) => Err(e),
                        Ok(m2) => match liq_burn(m2, t.debt_amount as int) {
                            Err(e) => Err(e),
                            Ok(m3) => if m3.total_debt < t.debt_amount {
                                Err(CdpError::DebtUnderflow)
                            } else {
                                Ok(
                                    (
                                        LiqModel {
                                            troves: m3.troves.remove((owner, collateral_id)),
                                            total_debt: m3.total_debt - t.debt_amount,
                                            ..m3
                                        },
                                        true,
                                    ),
                                )
                            },
                        },
                    },
                }
            }
        }
    }
}

/// The whole batch, owner by owner, counting the troves liquidated.
pub open spec fn liq_fold(
    m: LiqModel,
    owners: Seq<AccountId>,
    collateral_id: TokenId,
    feed: PriceFeed,
    cfg: CollateralConfig,
) -> Result<(LiqModel, int), CdpError>
    decreases owners.len(),
{
    if owners.len() == 0 {
        Ok((m, 0))
    } else {
        match liq_fold(m, owners.drop_last(), collateral_id, feed, cfg) {
            Err(e) => Err(e),
            Ok((m1, count)) => match liq_step(m1, owners.last(), collateral_id, feed, cfg) {
                Err(e) => Err(e),
                Ok((m2, b)) => Ok((m2, count + if b {
                    1int
                } else {
                    0int
                })),
            },
        }
    }
}

/// A batch that fails on some prefix fails as a whole, with the same
/// error.
pub proof fn lemma_liq_fold_prefix_err(
    m: LiqModel,
    owners: Seq<AccountId>,
    collateral_id: TokenId,
    feed: PriceFeed,
    cfg: CollateralConfig,
    i: int,
)
    requires
        0 <= i <= owners.len(),
        liq_fold(m, owners.take(i), collateral_id, feed, cfg) is Err,
    ensures
        liq_fold(m, owners, collateral_id, feed, cfg) == liq_fold(
            m,
            owners.take(i),
            collateral_id,
            feed,
            cfg,
        ),
    decreases owners.len() - i,
{
    if i == owners.len() {
        assert(owners.take(i) =~= owners);
    } else {
        assert(owners.take(i + 1).drop_last() =~= owners.take(i));
        assert(owners.take(i + 1).last() == owners[i]);
        lemma_liq_fold_prefix_err(m, owners, collateral_id, feed, cfg, i + 1);
    }
}

impl Contract {
    /// The liquidation-relevant projection of the state for one asset.
    pub open spec fn liq_model(self, collateral_id: TokenId) -> LiqModel {
        LiqModel {
            troves: self.troves.m(),
            total_debt: self.total_debt_val(collateral_id),
            rps: self.rps_val(collateral_id) as int,
            owner_reward: self.reward_val(self.owner_id, collateral_id) as int,
            pool_nusd: self.stability_pool_total_nusd as int,
            pool_shares: self.stability_pool_total_shares as int,
            epoch: self.stability_pool_epoch as int,
        }
    }

    /// Processes one owner of a liquidation batch, mirroring [`liq_step`].
    /// On an error the batch is abandoned, so nothing is promised of the
    /// state then.
    pub(crate) fn liquidate_one(
        &mut self,
        owner: AccountId,
        collateral_id: TokenId,
        feed: PriceFeed,
        cfg: CollateralConfig,
    ) -> (r: Result<bool, CdpError>)
        requires
            old(self).wf(),
            old(self).price_of(collateral_id) == Some(feed),
            old(self).config_of(collateral_id) == Some(cfg),
        ensures
            match r {
                Ok(b) => {
                    &&& (!b ==> *final(self) == *old(self))
                    &&& final(self).wf()
                    &&& final(self).price_of(collateral_id) == Some(feed)
                    &&& final(self).config_of(collateral_id) == Some(cfg)
                    &&& Self::same_admin(*old(self), *final(self))
                    &&& Self::same_configs(*old(self), *final(self))
                    &&& Self::same_prices(*old(self), *final(self))
                    &&& Self::same_deposits(*old(self), *final(self))
                    &&& Self::same_reward_debt(*old(self), *final(self))
                    &&& forall|a: u64|
                        a != collateral_id ==> final(self).total_debt.get_opt(a) == old(self).total_debt.get_opt(a)
                    &&& forall|k: u64|
                        k != collateral_id ==> final(self).reward_per_share.get_opt(k) == old(self).reward_per_share.get_opt(k)
                    &&& forall|k2: (u64, u64)|
                        k2 != (old(self).owner_id, collateral_id) ==> final(self).collateral_rewards.get_opt(k2) == old(self).collateral_rewards.get_opt(
                            k2,
                        )
                    &&& (final(self).stability_pool_epoch == old(self).stability_pool_epoch
                        ==> final(self).epoch_reward_cutoff == old(self).epoch_reward_cutoff)
                    &&& (final(self).stability_pool_epoch == old(self).stability_pool_epoch + 1
                        ==> {
                        &&& forall|k: u64| #[trigger]
                            final(self).reward_per_share.m().contains_key(k) ==> final(self).epoch_reward_cutoff.get_opt((old(self).stability_pool_epoch, k))
                                == Some(final(self).reward_per_share.m()[k])
                        &&& forall|k2: (u64, u64)|
                            !(k2.0 == old(self).stability_pool_epoch && final(self).reward_per_share.m().contains_key(k2.1)) ==> final(self).epoch_reward_cutoff.get_opt(k2) == old(self).epoch_reward_cutoff.get_opt(k2)
                    })
                    &&& liq_step(
                        old(self).liq_model(collateral_id),
                        owner,
                        collateral_id,
                        feed,
                        cfg,
                    ) == Result::<(LiqModel, bool), CdpError>::Ok(
                        (final(self).liq_model(collateral_id), b),
                    )
                },
                Err(e) => liq_step(
                    old(self).liq_model(collateral_id),
                    owner,
                    collateral_id,
                    feed,
                    cfg,
                ) == Result::<(LiqModel, bool), CdpError>::Err(e),
            },
    {
        let ghost s0 = *old(self);
        let trove = match self.troves.get(owner, collateral_id) {
            Some(t) => t,
            None => {
                return Ok(false);
            },
        };
        if trove.debt_amount == 0 {
            return Ok(false);
        }
        proof {
            assert(s0.price_feeds.m().contains_key(collateral_id));
        }
        let ratio = match crate::math::collateral_ratio(
            trove.collateral_amount,
            trove.debt_amount,
            feed.price,
            feed.decimals,
        ) {
            Ok(v) => v,
            Err(e) => {
                return Err(e);
            },
        };
        if ratio >= cfg.min_collateral_ratio_bps as u128 {
            return Ok(false);
        }
        if self.stability_pool_total_nusd < trove.debt_amount {
            return Err(CdpError::InsufficientPoolFunds);
        }
        let scaled_penalty = match trove.collateral_amount.checked_mul(
            cfg.liquidation_penalty_bps as u128,
        ) {
            Some(v) => v,
            None => {
                return Err(CdpError::Overflow);
            },
        };
        let penalty = scaled_penalty / BPS_DENOMINATOR;
        let distributable = match trove.collateral_amount.checked_sub(penalty) {
            Some(v) => v,
            None => {
                return Err(CdpError::Overflow);
            },
        };
        let ghost a0 = *self;
        match self.accrue_reward_per_share(collateral_id, distributable) {
            Ok(()) => (),
            Err(e) => {
                return Err(e);
            },
        }
        let ghost a1 = *self;
        proof {
            assert forall|k2: (u64, u64)| #[trigger]
                a1.collateral_rewards.m().contains_key(k2) implies a1.collateral_rewards.m()[k2]
                > 0 by {
                if distributable > 0 && a0.stability_pool_total_shares == 0 && k2 == (
                a0.owner_id,
                collateral_id,
                ) {
                } else {
                    assert(a0.collateral_rewards.m().contains_key(k2));
                }
            }
        }
        let protocol_owner = self.owner_id;
        match self.enqueue_collateral_reward(protocol_owner, collateral_id, penalty) {
            Ok(()) => (),
            Err(e) => {
                return Err(e);
            },
        }
        let ghost a2 = *self;
        proof {
            assert forall|k2: (u64, u64)| #[trigger]
                a2.collateral_rewards.m().contains_key(k2) implies a2.collateral_rewards.m()[k2]
                > 0 by {
                if penalty > 0 && k2 == (a0.owner_id, collateral_id) {
                } else {
                    assert(a1.collateral_rewards.m().contains_key(k2));
                }
            }
        }
        match self.burn_from_stability_pool(trove.debt_amount) {
            Ok(()) => (),
            Err(e) => {
                return Err(e);
            },
        }
        let ghost b1 = *self;
        proof {
            let mid = *self;
            let i = mid.troves.idx_of((owner, collateral_id));
            mid.troves.lemma_at(i);
            lemma_debt_sum_bound(mid.troves.entries@, i, collateral_id);
            assert(mid.total_debt_val(collateral_id) == debt_sum(mid.troves.entries@,
            collateral_id)) by {
                assert(s0.total_debt_val(collateral_id) == debt_sum(
                    s0.troves.entries@,
                    collateral_id,
                ));
            }
            assert(trove.debt_amount <= mid.total_debt_val(collateral_id));
        }
        let debt_result = self.decrease_total_debt(collateral_id, trove.debt_amount);
        match debt_result {
            Ok(()) => (),
            Err(e) => {
                proof {
                    assert(false);
                }
                return Err(e);
            },
        }
        proof {
            self.troves.lemma_at(self.troves.idx_of((owner, collateral_id)));
        }
        let ghost pre_remove = *self;
        self.troves.remove(owner, collateral_id);
        proof {
            let sf = *self;
            let ghost k = (owner, collateral_id);
            let i = pre_remove.troves.idx_of(k);
            assert forall|x: u64| sf.total_debt_val(x) == debt_sum(sf.troves.entries@, x) by {
                assert(s0.total_debt_val(x) == debt_sum(s0.troves.entries@, x));
                lemma_debt_sum_remove(pre_remove.troves.entries@, i, x);
            }
            assert forall|x: u64| #[trigger]
                sf.total_debt.m().contains_key(x) implies sf.total_debt.m()[x] > 0 by {
                if x != collateral_id {
                    assert(s0.total_debt.m().contains_key(x));
                }
            }
            assert forall|x: u64| #[trigger]
                sf.configs.m().contains_key(x) implies sf.total_debt_val(x)
                <= sf.configs.m()[x].debt_ceiling by {
                assert(s0.configs.m().contains_key(x));
                assert(s0.total_debt_val(x) >= sf.total_debt_val(x));
            }
            assert forall|k2: (u64, u64)| #[trigger]
                sf.collateral_rewards.m().contains_key(k2) implies sf.collateral_rewards.m()[k2]
                > 0 by {
                assert(sf.collateral_rewards == a2.collateral_rewards);
                assert(a2.collateral_rewards.m().contains_key(k2));
            }
            assert(sf.reward_per_share == a1.reward_per_share);
            assert(sf.epoch_reward_cutoff == b1.epoch_reward_cutoff);
            assert forall|k2: (u64, u64)| #[trigger]
                sf.epoch_reward_cutoff.m().contains_key(
                    k2,
                ) implies sf.reward_per_share.m().contains_key(k2.1) by {
                if a2.stability_pool_total_nusd - trove.debt_amount == 0 && k2.0
                    == a2.stability_pool_epoch && a2.reward_per_share.m().contains_key(k2.1) {
                    assert(a2.reward_per_share == a1.reward_per_share);
                } else {
                    assert(b1.epoch_reward_cutoff.get_opt(k2) == a2.epoch_reward_cutoff.get_opt(
                        k2,
                    ));
                    assert(a2.epoch_reward_cutoff.m().contains_key(k2));
                    assert(s0.epoch_reward_cutoff.m().contains_key(k2));
                    assert(s0.reward_per_share.m().contains_key(k2.1));
                    if distributable > 0 && a0.stability_pool_total_shares > 0 {
                        assert(a1.reward_per_share.m() == a0.reward_per_share.m().insert(
                            collateral_id,
                            (a0.rps_val(collateral_id) + a0.rps_delta(distributable)) as u128,
                        ));
                    } else {
                        assert(a1.reward_per_share == a0.reward_per_share);
                    }
                }
            }
            Self::lemma_wf_from_parts(s0, sf);
            if sf.stability_pool_epoch == s0.stability_pool_epoch {
                assert(a2.stability_pool_total_nusd - trove.debt_amount > 0);
                assert(sf.epoch_reward_cutoff == s0.epoch_reward_cutoff);
            }
            if sf.stability_pool_epoch == s0.stability_pool_epoch + 1 {
                assert(a2.stability_pool_total_nusd - trove.debt_amount == 0);
                assert(a2.reward_per_share == a1.reward_per_share);
                assert forall|k: u64| #[trigger]
                    sf.reward_per_share.m().contains_key(k) implies sf.epoch_reward_cutoff.get_opt(
                    (s0.stability_pool_epoch, k),
                ) == Some(sf.reward_per_share.m()[k]) by {
                    assert(a2.reward_per_share.m().contains_key(k));
                    assert(a2.rps_val(k) == sf.reward_per_share.m()[k]);
                }
                assert forall|k2: (u64, u64)|
                    !(k2.0 == s0.stability_pool_epoch && sf.reward_per_share.m().contains_key(
                        k2.1,
                    )) implies sf.epoch_reward_cutoff.get_opt(k2) == s0.epoch_reward_cutoff.get_opt(
                    k2,
                ) by {
                    assert(a2.epoch_reward_cutoff == s0.epoch_reward_cutoff);
                    assert(b1.epoch_reward_cutoff.get_opt(k2) == a2.epoch_reward_cutoff.get_opt(
                        k2,
                    ));
                }
            }
        }
        Ok(true)
    }

    /// Why `liquidate` would be rejected, if it would be.
    pub open spec fn liquidate_err(self, collateral_id: TokenId, owners: Seq<AccountId>) -> Option<
        CdpError,
    > {
        if owners.len() == 0 {
            Some(CdpError::OwnersRequired)
        } else if self.price_of(collateral_id) is None {
            Some(CdpError::PriceNotAvailable)
        } else if self.config_of(collateral_id) is None {
            Some(CdpError::NotSupported)
        } else {
            match liq_fold(
                self.liq_model(collateral_id),
                owners,
                collateral_id,
                self.price_of(collateral_id).unwrap(),
                self.config_of(collateral_id).unwrap(),
            ) {
                Ok(_) => None,
                Err(e) => Some(e),
            }
        }
    }

    /// Liquidates a batch of candidate troves of one asset, as
    /// [`liq_fold`] describes, and returns how many troves were actually
    /// liquidated.  Skipped owners (no trove, no debt, healthy ratio) are
    /// not counted and not errors; the whole batch is rolled back on any
    /// error.
    pub fn liquidate(
        &mut self,
        collateral_id: TokenId,
        owners: &Vec<AccountId>,
    ) -> (r: Result<u64, CdpError>)
        requires
            old(self).wf(),
            owners@.len() <= u64::MAX,
        ensures
            final(self).wf(),
            match r {
                Ok(n) => {
                    &&& old(self).liquidate_err(collateral_id, owners@) is None
                    &&& liq_fold(
                        old(self).liq_model(collateral_id),
                        owners@,
                        collateral_id,
                        old(self).price_of(collateral_id).unwrap(),
                        old(self).config_of(collateral_id).unwrap(),
                    ) == Result::<(LiqModel, int), CdpError>::Ok(
                        (final(self).liq_model(collateral_id), n as int),
                    )
                    &&& Self::same_admin(*old(self), *final(self))
                    &&& Self::same_configs(*old(self), *final(self))
                    &&& Self::same_prices(*old(self), *final(self))
                    &&& Self::same_deposits(*old(self), *final(self))
                    &&& Self::same_reward_debt(*old(self), *final(self))
                    &&& forall|a: u64|
                        a != collateral_id ==> final(self).total_debt.get_opt(a) == old(self).total_debt.get_opt(a)
                    &&& forall|k: u64|
                        k != collateral_id ==> final(self).reward_per_share.get_opt(k) == old(self).reward_per_share.get_opt(k)
                    &&& forall|k2: (u64, u64)|
                        k2 != (old(self).owner_id, collateral_id) ==> final(self).collateral_rewards.get_opt(k2) == old(self).collateral_rewards.get_opt(
                            k2,
                        )
                    &&& (final(self).stability_pool_epoch == old(self).stability_pool_epoch
                        ==> final(self).epoch_reward_cutoff.m() == old(self).epoch_reward_cutoff.m())
                    &&& (final(self).stability_pool_epoch == old(self).stability_pool_epoch + 1
                        ==> {
                        &&& forall|k: u64| #[trigger]
                            final(self).reward_per_share.m().contains_key(k) ==> final(self).epoch_reward_cutoff.get_opt((old(self).stability_pool_epoch, k))
                                == Some(final(self).reward_per_share.m()[k])
                        &&& forall|k2: (u64, u64)|
                            !(k2.0 == old(self).stability_pool_epoch && final(self).reward_per_share.m().contains_key(k2.1)) ==> final(self).epoch_reward_cutoff.get_opt(k2) == old(self).epoch_reward_cutoff.get_opt(k2)
                    })
                },
                Err(e) => old(self).liquidate_err(collateral_id, owners@) == Some(e) && *final(self) == *old(self),
            },
    {
        if owners.len() == 0 {
            return Err(CdpError::OwnersRequired);
        }
        let feed = match self.price_feeds.get(collateral_id) {
            Some(p) => p,
            None => {
                return Err(CdpError::PriceNotAvailable);
            },
        };
        let config = match self.configs.get(collateral_id) {
            Some(c) => c,
            None => {
                return Err(CdpError::NotSupported);
            },
        };
        let ghost s0 = *old(self);
        let mut work = self.duplicate();
        proof {
            assert(work.liq_model(collateral_id) == s0.liq_model(collateral_id));
            assert(owners@.take(0) =~= Seq::<AccountId>::empty());
        }
        let n = owners.len();
        let mut processed: u64 = 0;
        let mut i: usize = 0;
        while i < n
            invariant
                s0 == *old(self),
                s0.wf(),
                s0.price_of(collateral_id) == Some(feed),
                s0.config_of(collateral_id) == Some(config),
                n == owners@.len(),
                n <= u64::MAX,
                i <= n,
                processed <= i,
                work.wf(),
                work.price_of(collateral_id) == Some(feed),
                work.config_of(collateral_id) == Some(config),
                work.owner_id == s0.owner_id,
                Self::same_admin(s0, work),
                Self::same_configs(s0, work),
                Self::same_prices(s0, work),
                Self::same_deposits(s0, work),
                Self::same_reward_debt(s0, work),
                forall|a: u64|
                    a != collateral_id ==> work.total_debt.get_opt(a) == s0.total_debt.get_opt(a),
                forall|k: u64|
                    k != collateral_id ==> work.reward_per_share.get_opt(k)
                        == s0.reward_per_share.get_opt(k),
                forall|k2: (u64, u64)|
                    k2 != (s0.owner_id, collateral_id) ==> work.collateral_rewards.get_opt(k2)
                        == s0.collateral_rewards.get_opt(k2),
                ({
                    ||| (work.stability_pool_epoch == s0.stability_pool_epoch
                        && work.epoch_reward_cutoff.m() == s0.epoch_reward_cutoff.m())
                    ||| (work.stability_pool_epoch == s0.stability_pool_epoch + 1
                        && work.stability_pool_total_nusd == 0 && (forall|k: u64| #[trigger]
                        work.reward_per_share.m().contains_key(
                            k,
                        ) ==> work.epoch_reward_cutoff.get_opt((s0.stability_pool_epoch, k))
                            == Some(work.reward_per_share.m()[k])) && (forall|k2: (u64, u64)|
                        !(k2.0 == s0.stability_pool_epoch && work.reward_per_share.m().contains_key(
                            k2.1,
                        )) ==> work.epoch_reward_cutoff.get_opt(k2)
                            == s0.epoch_reward_cutoff.get_opt(k2)))
                }),
                liq_fold(
                    s0.liq_model(collateral_id),
                    owners@.take(i as int),
                    collateral_id,
                    feed,
                    config,
                ) == Result::<(LiqModel, int), CdpError>::Ok(
                    (work.liq_model(collateral_id), processed as int),
                ),
            decreases n - i,
        {
            let owner = owners[i];
            let ghost w_pre = work;
            let step_result = work.liquidate_one(owner, collateral_id, feed, config);
            proof {
                assert(owners@.take(i + 1).drop_last() =~= owners@.take(i as int));
                assert(owners@.take(i + 1).last() == owners@[i as int]);
            }
            match step_result {
                Ok(counted) => {
                    proof {
                        if counted {
                            assert(w_pre.stability_pool_epoch == s0.stability_pool_epoch
                                && w_pre.epoch_reward_cutoff.m()
                                == s0.epoch_reward_cutoff.m()) by {
                                if w_pre.stability_pool_epoch == s0.stability_pool_epoch + 1 {
                                    assert(w_pre.stability_pool_total_nusd == 0);
                                    assert(false);
                                }
                            }
                            if work.stability_pool_epoch == w_pre.stability_pool_epoch {
                                assert(work.epoch_reward_cutoff == w_pre.epoch_reward_cutoff);
                                assert(work.epoch_reward_cutoff.m()
                                    == s0.epoch_reward_cutoff.m());
                            } else {
                                assert(work.stability_pool_epoch == w_pre.stability_pool_epoch
                                    + 1);
                                assert(work.stability_pool_total_nusd == 0);
                                assert forall|k2: (u64, u64)|
                                    !(k2.0 == s0.stability_pool_epoch
                                        && work.reward_per_share.m().contains_key(
                                        k2.1,
                                    )) implies work.epoch_reward_cutoff.get_opt(k2)
                                    == s0.epoch_reward_cutoff.get_opt(k2) by {
                                    assert(work.epoch_reward_cutoff.get_opt(k2)
                                        == w_pre.epoch_reward_cutoff.get_opt(k2));
                                }
                            }
                        }
                    }
                    if counted {
                        processed = processed + 1;
                    }
                    proof {
                        assert(liq_fold(
                            s0.liq_model(collateral_id),
                            owners@.take(i + 1),
                            collateral_id,
                            feed,
                            config,
                        ) == Result::<(LiqModel, int), CdpError>::Ok(
                            (work.liq_model(collateral_id), processed as int),
                        ));
                    }
                },
                Err(e) => {
                    proof {
                        assert(liq_fold(
                            s0.liq_model(collateral_id),
                            owners@.take(i + 1),
                            collateral_id,
                            feed,
                            config,
                        ) is Err);
                        lemma_liq_fold_prefix_err(
                            s0.liq_model(collateral_id),
                            owners@,
                            collateral_id,
                            feed,
                            config,
                            i + 1,
                        );
                    }
                    return Err(e);
                },
            }
            i = i + 1;
        }
        proof {
            assert(owners@.take(n as int) =~= owners@);
        }
        *self = work;
        Ok(processed)
    }
}

} // verus!
