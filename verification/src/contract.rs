//! The engine's state and its registry, price and debt-total bookkeeping.
//!
//! `Contract` owns every record: per-asset configuration, price feeds,
//! troves, per-asset debt totals, the stability pool and the claimable
//! reward ledger.  Each public operation is all-or-nothing: it either
//! commits the described state change or returns an error leaving the state
//! exactly as it was.

use vstd::prelude::*;

use crate::errors::CdpError;
use crate::pmap::PMap;
use crate::sums::{debt_sum, shares_sum};
use crate::types::{
    AccountId, Balance, CollateralConfig, PriceFeed, StabilityDeposit, TokenId, Trove,
};
use crate::umap::UMap;

verus! {

/// The accounting core's entire state.
pub struct Contract {
    pub owner_id: AccountId,
    pub intent_router_id: AccountId,
    pub pyth_oracle_id: AccountId,
    /// Per-asset risk parameters.
    pub configs: UMap<CollateralConfig>,
    /// Troves, keyed by (owner, collateral asset).
    pub troves: PMap<Trove>,
    /// Per-asset debt totals; an entry that reaches zero is removed.
    pub total_debt: UMap<Balance>,
    /// Latest oracle price per asset.
    pub price_feeds: UMap<PriceFeed>,
    /// Stability-pool deposits, keyed by depositor account.
    pub stability_pool_deposits: UMap<StabilityDeposit>,
    /// Last-settled reward-per-share snapshot, keyed by (account, asset).
    pub reward_debt: PMap<u128>,
    /// Claimable collateral, keyed by (account, asset); entries are positive.
    pub collateral_rewards: PMap<Balance>,
    /// Cumulative reward per share (scaled by 10^24), keyed by asset.
    pub reward_per_share: UMap<u128>,
    /// The accumulator value each asset had when a pool generation was
    /// drained, keyed by (epoch, asset).  A deposit left over from that
    /// generation is settled against this frozen value, never against
    /// later growth of the accumulator.
    pub epoch_reward_cutoff: PMap<u128>,
    pub stability_pool_total_shares: Balance,
    pub stability_pool_total_nusd: Balance,
    pub stability_pool_epoch: u64,
}

impl Contract {
    /// The configuration of `token`, if registered.
    pub open spec fn config_of(self, token: TokenId) -> Option<CollateralConfig> {
        self.configs.get_opt(token)
    }

    /// The latest price feed of `token`, if any.
    pub open spec fn price_of(self, token: TokenId) -> Option<PriceFeed> {
        self.price_feeds.get_opt(token)
    }

    /// The trove of `owner` for `token`, if any.
    pub open spec fn trove_of(self, owner: AccountId, token: TokenId) -> Option<Trove> {
        self.troves.get_opt((owner, token))
    }

    /// The recorded debt total of `token`; a missing entry counts as zero.
    pub open spec fn total_debt_val(self, token: TokenId) -> int {
        match self.total_debt.get_opt(token) {
            Some(v) => v as int,
            None => 0,
        }
    }

    /// The stability-pool deposit record of `account`, if any.
    pub open spec fn deposit_of(self, account: AccountId) -> Option<StabilityDeposit> {
        self.stability_pool_deposits.get_opt(account)
    }

    /// The reward-per-share snapshot `account` was last settled against for
    /// `token`; a missing entry counts as zero.
    pub open spec fn reward_debt_val(self, account: AccountId, token: TokenId) -> u128 {
        match self.reward_debt.get_opt((account, token)) {
            Some(v) => v,
            None => 0,
        }
    }

    /// The claimable collateral of `account` for `token`; a missing entry
    /// counts as zero.
    pub open spec fn reward_val(self, account: AccountId, token: TokenId) -> Balance {
        match self.collateral_rewards.get_opt((account, token)) {
            Some(v) => v,
            None => 0,
        }
    }

    /// The global reward-per-share accumulator of `token`; a missing entry
    /// counts as zero.
    pub open spec fn rps_val(self, token: TokenId) -> u128 {
        match self.reward_per_share.get_opt(token) {
            Some(v) => v,
            None => 0,
        }
    }

    /// The accumulator value `token` was frozen at when generation `epoch`
    /// was drained; a missing entry counts as zero.
    pub open spec fn cutoff_val(self, epoch: u64, token: TokenId) -> u128 {
        match self.epoch_reward_cutoff.get_opt((epoch, token)) {
            Some(v) => v,
            None => 0,
        }
    }

    /// Well-formedness: unique map keys, debt totals consistent with the
    /// troves and bounded by the ceilings, valid registered parameters and
    /// prices, and pool share total consistent with the fresh deposits.
    pub open spec fn wf(self) -> bool {
        &&& self.configs.wf()
        &&& self.troves.wf()
        &&& self.total_debt.wf()
        &&& self.price_feeds.wf()
        &&& self.stability_pool_deposits.wf()
        &&& self.reward_debt.wf()
        &&& self.collateral_rewards.wf()
        &&& self.reward_per_share.wf()
        &&& self.epoch_reward_cutoff.wf()
        &&& forall|a: u64| self.total_debt_val(a) == debt_sum(self.troves.entries@, a)
        &&& forall|a: u64| #[trigger]
            self.total_debt.m().contains_key(a) ==> self.total_debt.m()[a] > 0
        &&& forall|a: u64| #[trigger]
            self.configs.m().contains_key(a) ==> self.total_debt_val(a) <= self.configs.m()[a].debt_ceiling
        &&& forall|a: u64| #[trigger]
            self.configs.m().contains_key(a) ==> self.configs.m()[a].min_collateral_ratio_bps >= 1100
                && self.configs.m()[a].recovery_collateral_ratio_bps
                >= self.configs.m()[a].min_collateral_ratio_bps
        &&& forall|a: u64| #[trigger]
            self.price_feeds.m().contains_key(a) ==> self.price_feeds.m()[a].price > 0
                && self.price_feeds.m()[a].decimals <= 18
        &&& shares_sum(self.stability_pool_deposits.entries@, self.stability_pool_epoch)
            == self.stability_pool_total_shares
        &&& forall|a: u64| #[trigger]
            self.stability_pool_deposits.m().contains_key(a) ==> self.stability_pool_deposits.m()[a].epoch
                <= self.stability_pool_epoch
        &&& forall|k: (u64, u64)| #[trigger]
            self.collateral_rewards.m().contains_key(k) ==> self.collateral_rewards.m()[k] > 0
        &&& forall|k: (u64, u64)| #[trigger]
            self.epoch_reward_cutoff.m().contains_key(k) ==> self.reward_per_share.m().contains_key(
                k.1,
            )
    }

    /// The administrator and collaborator identities are the same.
    pub open spec fn same_admin(a: Contract, b: Contract) -> bool {
        b.owner_id == a.owner_id && b.intent_router_id == a.intent_router_id && b.pyth_oracle_id
            == a.pyth_oracle_id
    }

    pub open spec fn same_configs(a: Contract, b: Contract) -> bool {
        b.configs.m() == a.configs.m()
    }

    pub open spec fn same_prices(a: Contract, b: Contract) -> bool {
        b.price_feeds.m() == a.price_feeds.m()
    }

    pub open spec fn same_troves(a: Contract, b: Contract) -> bool {
        b.troves.m() == a.troves.m()
    }

    pub open spec fn same_total_debt(a: Contract, b: Contract) -> bool {
        b.total_debt.m() == a.total_debt.m()
    }

    pub open spec fn same_deposits(a: Contract, b: Contract) -> bool {
        b.stability_pool_deposits.m() == a.stability_pool_deposits.m()
    }

    pub open spec fn same_reward_debt(a: Contract, b: Contract) -> bool {
        b.reward_debt.m() == a.reward_debt.m()
    }

    pub open spec fn same_rewards(a: Contract, b: Contract) -> bool {
        b.collateral_rewards.m() == a.collateral_rewards.m()
    }

    pub open spec fn same_rps(a: Contract, b: Contract) -> bool {
        b.reward_per_share.m() == a.reward_per_share.m()
    }

    pub open spec fn same_cutoffs(a: Contract, b: Contract) -> bool {
        b.epoch_reward_cutoff.m() == a.epoch_reward_cutoff.m()
    }

    /// The pool's scalar state is the same.
    pub open spec fn same_pool(a: Contract, b: Contract) -> bool {
        b.stability_pool_total_shares == a.stability_pool_total_shares
            && b.stability_pool_total_nusd == a.stability_pool_total_nusd && b.stability_pool_epoch
            == a.stability_pool_epoch
    }

    /// The two states are observably equal.
    pub open spec fn state_eq(a: Contract, b: Contract) -> bool {
        &&& Self::same_admin(a, b)
        &&& Self::same_configs(a, b)
        &&& Self::same_prices(a, b)
        &&& Self::same_troves(a, b)
        &&& Self::same_total_debt(a, b)
        &&& Self::same_deposits(a, b)
        &&& Self::same_reward_debt(a, b)
        &&& Self::same_rewards(a, b)
        &&& Self::same_rps(a, b)
        &&& Self::same_cutoffs(a, b)
        &&& Self::same_pool(a, b)
    }

    /// Everything except the configuration registry is the same.
    pub open spec fn frame_configs(a: Contract, b: Contract) -> bool {
        &&& Self::same_admin(a, b)
        &&& Self::same_prices(a, b)
        &&& Self::same_troves(a, b)
        &&& Self::same_total_debt(a, b)
        &&& Self::same_deposits(a, b)
        &&& Self::same_reward_debt(a, b)
        &&& Self::same_rewards(a, b)
        &&& Self::same_rps(a, b)
        &&& Self::same_cutoffs(a, b)
        &&& Self::same_pool(a, b)
    }

    /// Everything except the price feeds is the same.
    pub open spec fn frame_prices(a: Contract, b: Contract) -> bool {
        &&& Self::same_admin(a, b)
        &&& Self::same_configs(a, b)
        &&& Self::same_troves(a, b)
        &&& Self::same_total_debt(a, b)
        &&& Self::same_deposits(a, b)
        &&& Self::same_reward_debt(a, b)
        &&& Self::same_rewards(a, b)
        &&& Self::same_rps(a, b)
        &&& Self::same_cutoffs(a, b)
        &&& Self::same_pool(a, b)
    }

    /// Everything except the troves and the debt totals is the same.
    pub open spec fn frame_troves_debt(a: Contract, b: Contract) -> bool {
        &&& Self::same_admin(a, b)
        &&& Self::same_configs(a, b)
        &&& Self::same_prices(a, b)
        &&& Self::same_deposits(a, b)
        &&& Self::same_reward_debt(a, b)
        &&& Self::same_rewards(a, b)
        &&& Self::same_rps(a, b)
        &&& Self::same_cutoffs(a, b)
        &&& Self::same_pool(a, b)
    }

    /// Everything except the troves alone is the same.
    pub open spec fn frame_troves(a: Contract, b: Contract) -> bool {
        &&& Self::same_admin(a, b)
        &&& Self::same_configs(a, b)
        &&& Self::same_prices(a, b)
        &&& Self::same_total_debt(a, b)
        &&& Self::same_deposits(a, b)
        &&& Self::same_reward_debt(a, b)
        &&& Self::same_rewards(a, b)
        &&& Self::same_rps(a, b)
        &&& Self::same_cutoffs(a, b)
        &&& Self::same_pool(a, b)
    }

    /// Everything except the claimable-reward ledger is the same.
    pub open spec fn frame_rewards(a: Contract, b: Contract) -> bool {
        &&& Self::same_admin(a, b)
        &&& Self::same_configs(a, b)
        &&& Self::same_prices(a, b)
        &&& Self::same_troves(a, b)
        &&& Self::same_total_debt(a, b)
        &&& Self::same_deposits(a, b)
        &&& Self::same_reward_debt(a, b)
        &&& Self::same_rps(a, b)
        &&& Self::same_cutoffs(a, b)
        &&& Self::same_pool(a, b)
    }

    /// The registry, prices, troves and debt totals are the same (the
    /// stability-pool side may differ).
    pub open spec fn frame_pool_side(a: Contract, b: Contract) -> bool {
        &&& Self::same_admin(a, b)
        &&& Self::same_configs(a, b)
        &&& Self::same_prices(a, b)
        &&& Self::same_troves(a, b)
        &&& Self::same_total_debt(a, b)
    }

    /// Re-assembles well-formedness for a state `b` derived from a
    /// well-formed `a` without touching the registry or the price feeds.
    /// The caller supplies the clauses about whatever it changed; the
    /// registry and price clauses are carried over.
    pub proof fn lemma_wf_from_parts(a: Contract, b: Contract)
        requires
            a.wf(),
            b.configs.entries@ == a.configs.entries@,
            b.price_feeds.entries@ == a.price_feeds.entries@,
            b.troves.wf(),
            b.total_debt.wf(),
            b.stability_pool_deposits.wf(),
            b.reward_debt.wf(),
            b.collateral_rewards.wf(),
            b.reward_per_share.wf(),
            b.epoch_reward_cutoff.wf(),
            forall|x: u64| b.total_debt_val(x) == debt_sum(b.troves.entries@, x),
            forall|x: u64| #[trigger] b.total_debt.m().contains_key(x) ==> b.total_debt.m()[x] > 0,
            forall|x: u64| #[trigger]
                b.configs.m().contains_key(x) ==> b.total_debt_val(x) <= b.configs.m()[x].debt_ceiling,
            shares_sum(b.stability_pool_deposits.entries@, b.stability_pool_epoch)
                == b.stability_pool_total_shares,
            forall|x: u64| #[trigger]
                b.stability_pool_deposits.m().contains_key(x) ==> b.stability_pool_deposits.m()[x].epoch
                    <= b.stability_pool_epoch,
            forall|k: (u64, u64)| #[trigger]
                b.collateral_rewards.m().contains_key(k) ==> b.collateral_rewards.m()[k] > 0,
            forall|k: (u64, u64)| #[trigger]
                b.epoch_reward_cutoff.m().contains_key(k) ==> b.reward_per_share.m().contains_key(
                    k.1,
                ),
        ensures
            b.wf(),
            b.configs.m() == a.configs.m(),
            b.price_feeds.m() == a.price_feeds.m(),
    {
        UMap::<CollateralConfig>::lemma_view_eq(a.configs, b.configs);
        UMap::<PriceFeed>::lemma_view_eq(a.price_feeds, b.price_feeds);
        assert forall|x: u64| #[trigger]
            b.configs.m().contains_key(x) implies b.configs.m()[x].min_collateral_ratio_bps >= 1100
            && b.configs.m()[x].recovery_collateral_ratio_bps
            >= b.configs.m()[x].min_collateral_ratio_bps by {
            assert(a.configs.m().contains_key(x));
        }
        assert forall|x: u64| #[trigger]
            b.price_feeds.m().contains_key(x) implies b.price_feeds.m()[x].price > 0
            && b.price_feeds.m()[x].decimals <= 18 by {
            assert(a.price_feeds.m().contains_key(x));
        }
    }

    /// Raises the recorded debt total of an asset, enforcing the ceiling.
    /// The rest of the state is untouched.
    pub(crate) fn increase_total_debt(&mut self, token: TokenId, amount: Balance) -> (r: Result<
        (),
        CdpError,
    >)
        requires
            old(self).total_debt.wf(),
            old(self).configs.wf(),
        ensures
            final(self).total_debt.wf(),
            *final(self) == (Contract { total_debt: final(self).total_debt, ..*old(self) }),
            match r {
                Ok(()) => {
                    let t1 = old(self).total_debt_val(token) + amount;
                    &&& t1 <= u128::MAX
                    &&& old(self).configs.dom_has(token)
                    &&& t1 <= old(self).configs.m()[token].debt_ceiling
                    &&& (t1 == 0 ==> final(self).total_debt.m() == old(self).total_debt.m().remove(
                        token,
                    ))
                    &&& (t1 > 0 ==> final(self).total_debt.m() == old(self).total_debt.m().insert(
                        token,
                        t1 as u128,
                    ))
                },
                Err(e) => {
                    let t1 = old(self).total_debt_val(token) + amount;
                    &&& *final(self) == *old(self)
                    &&& (if t1 > u128::MAX {
                        e == CdpError::Overflow
                    } else if !old(self).configs.dom_has(token) {
                        e == CdpError::NotSupported
                    } else {
                        t1 > old(self).configs.m()[token].debt_ceiling && e
                            == CdpError::CeilingExceeded
                    })
                },
            },
    {
        let total = match self.total_debt.get(token) {
            Some(v) => v,
            None => 0,
        };
        let increased = match total.checked_add(amount) {
            Some(v) => v,
            None => {
                return Err(CdpError::Overflow);
            },
        };
        let config = match self.configs.get(token) {
            Some(c) => c,
            None => {
                return Err(CdpError::NotSupported);
            },
        };
        if increased > config.debt_ceiling {
            return Err(CdpError::CeilingExceeded);
        }
        if increased == 0 {
            self.total_debt.remove(token);
        } else {
            self.total_debt.set(token, increased);
        }
        Ok(())
    }

    /// Lowers the recorded debt total of an asset; an entry that reaches
    /// zero is removed.  The rest of the state is untouched.
    pub(crate) fn decrease_total_debt(&mut self, token: TokenId, amount: Balance) -> (r: Result<
        (),
        CdpError,
    >)
        requires
            old(self).total_debt.wf(),
        ensures
            final(self).total_debt.wf(),
            *final(self) == (Contract { total_debt: final(self).total_debt, ..*old(self) }),
            match r {
                Ok(()) => {
                    let t1 = old(self).total_debt_val(token) - amount;
                    &&& t1 >= 0
                    &&& (t1 == 0 ==> final(self).total_debt.m() == old(self).total_debt.m().remove(
                        token,
                    ))
                    &&& (t1 > 0 ==> final(self).total_debt.m() == old(self).total_debt.m().insert(
                        token,
                        t1 as u128,
                    ))
                },
                Err(e) => {
                    &&& *final(self) == *old(self)
                    &&& old(self).total_debt_val(token) < amount
                    &&& e == CdpError::DebtUnderflow
                },
            },
    {
        let total = match self.total_debt.get(token) {
            Some(v) => v,
            None => 0,
        };
        if total < amount {
            return Err(CdpError::DebtUnderflow);
        }
        let reduced = total - amount;
        if reduced == 0 {
            self.total_debt.remove(token);
        } else {
            self.total_debt.set(token, reduced);
        }
        Ok(())
    }

    /// An entry-for-entry copy of the whole state.  Operations with
    /// intermediate steps work on the copy and commit it only once every
    /// step has succeeded, which keeps each operation all-or-nothing.
    pub fn duplicate(&self) -> (r: Contract)
        requires
            self.wf(),
        ensures
            r.wf(),
            Self::state_eq(*self, r),
            r.owner_id == self.owner_id,
            r.intent_router_id == self.intent_router_id,
            r.pyth_oracle_id == self.pyth_oracle_id,
            r.configs.entries@ == self.configs.entries@,
            r.troves.entries@ == self.troves.entries@,
            r.total_debt.entries@ == self.total_debt.entries@,
            r.price_feeds.entries@ == self.price_feeds.entries@,
            r.stability_pool_deposits.entries@ == self.stability_pool_deposits.entries@,
            r.reward_debt.entries@ == self.reward_debt.entries@,
            r.collateral_rewards.entries@ == self.collateral_rewards.entries@,
            r.reward_per_share.entries@ == self.reward_per_share.entries@,
            r.epoch_reward_cutoff.entries@ == self.epoch_reward_cutoff.entries@,
            r.stability_pool_total_shares == self.stability_pool_total_shares,
            r.stability_pool_total_nusd == self.stability_pool_total_nusd,
            r.stability_pool_epoch == self.stability_pool_epoch,
    {
        let r = Contract {
            owner_id: self.owner_id,
            intent_router_id: self.intent_router_id,
            pyth_oracle_id: self.pyth_oracle_id,
            configs: self.configs.duplicate(),
            troves: self.troves.duplicate(),
            total_debt: self.total_debt.duplicate(),
            price_feeds: self.price_feeds.duplicate(),
            stability_pool_deposits: self.stability_pool_deposits.duplicate(),
            reward_debt: self.reward_debt.duplicate(),
            collateral_rewards: self.collateral_rewards.duplicate(),
            reward_per_share: self.reward_per_share.duplicate(),
            epoch_reward_cutoff: self.epoch_reward_cutoff.duplicate(),
            stability_pool_total_shares: self.stability_pool_total_shares,
            stability_pool_total_nusd: self.stability_pool_total_nusd,
            stability_pool_epoch: self.stability_pool_epoch,
        };
        proof {
            UMap::<CollateralConfig>::lemma_view_eq(self.configs, r.configs);
            PMap::<Trove>::lemma_view_eq(self.troves, r.troves);
            UMap::<Balance>::lemma_view_eq(self.total_debt, r.total_debt);
            UMap::<PriceFeed>::lemma_view_eq(self.price_feeds, r.price_feeds);
            UMap::<StabilityDeposit>::lemma_view_eq(
                self.stability_pool_deposits,
                r.stability_pool_deposits,
            );
            PMap::<u128>::lemma_view_eq(self.reward_debt, r.reward_debt);
            PMap::<Balance>::lemma_view_eq(self.collateral_rewards, r.collateral_rewards);
            UMap::<u128>::lemma_view_eq(self.reward_per_share, r.reward_per_share);
            PMap::<u128>::lemma_view_eq(self.epoch_reward_cutoff, r.epoch_reward_cutoff);
            assert forall|a: u64| r.total_debt_val(a) == debt_sum(r.troves.entries@, a) by {
                assert(self.total_debt_val(a) == debt_sum(self.troves.entries@, a));
            }
            assert forall|a: u64| #[trigger]
                r.total_debt.m().contains_key(a) implies r.total_debt.m()[a] > 0 by {
                assert(self.total_debt.m().contains_key(a));
            }
            assert forall|a: u64| #[trigger]
                r.configs.m().contains_key(a) implies r.total_debt_val(a)
                <= r.configs.m()[a].debt_ceiling && r.configs.m()[a].min_collateral_ratio_bps
                >= 1100 && r.configs.m()[a].recovery_collateral_ratio_bps
                >= r.configs.m()[a].min_collateral_ratio_bps by {
                assert(self.configs.m().contains_key(a));
            }
            assert forall|a: u64| #[trigger]
                r.price_feeds.m().contains_key(a) implies r.price_feeds.m()[a].price > 0
                && r.price_feeds.m()[a].decimals <= 18 by {
                assert(self.price_feeds.m().contains_key(a));
            }
            assert forall|a: u64| #[trigger]
                r.stability_pool_deposits.m().contains_key(
                    a,
                ) implies r.stability_pool_deposits.m()[a].epoch <= r.stability_pool_epoch by {
                assert(self.stability_pool_deposits.m().contains_key(a));
            }
            assert forall|k: (u64, u64)| #[trigger]
                r.collateral_rewards.m().contains_key(k) implies r.collateral_rewards.m()[k]
                > 0 by {
                assert(self.collateral_rewards.m().contains_key(k));
            }
            assert forall|k: (u64, u64)| #[trigger]
                r.epoch_reward_cutoff.m().contains_key(
                    k,
                ) implies r.reward_per_share.m().contains_key(k.1) by {
                assert(self.epoch_reward_cutoff.m().contains_key(k));
            }
        }
        r
    }

    /// A fresh engine with no registered assets, no troves and an empty
    /// stability pool.
    pub fn new(owner_id: AccountId, intent_router_id: AccountId, pyth_oracle_id: AccountId) -> (r:
        Contract)
        ensures
            r.wf(),
            r.owner_id == owner_id,
            r.intent_router_id == intent_router_id,
            r.pyth_oracle_id == pyth_oracle_id,
            r.configs.m() =~= Map::<u64, CollateralConfig>::empty(),
            r.troves.m() =~= Map::<(u64, u64), Trove>::empty(),
            r.total_debt.m() =~= Map::<u64, Balance>::empty(),
            r.price_feeds.m() =~= Map::<u64, PriceFeed>::empty(),
            r.stability_pool_deposits.m() =~= Map::<u64, StabilityDeposit>::empty(),
            r.reward_debt.m() =~= Map::<(u64, u64), u128>::empty(),
            r.collateral_rewards.m() =~= Map::<(u64, u64), Balance>::empty(),
            r.reward_per_share.m() =~= Map::<u64, u128>::empty(),
            r.epoch_reward_cutoff.m() =~= Map::<(u64, u64), u128>::empty(),
            r.stability_pool_total_shares == 0,
            r.stability_pool_total_nusd == 0,
            r.stability_pool_epoch == 0,
    {
        Contract {
            owner_id,
            intent_router_id,
            pyth_oracle_id,
            configs: UMap::new(),
            troves: PMap::new(),
            total_debt: UMap::new(),
            price_feeds: UMap::new(),
            stability_pool_deposits: UMap::new(),
            reward_debt: PMap::new(),
            collateral_rewards: PMap::new(),
            reward_per_share: UMap::new(),
            epoch_reward_cutoff: PMap::new(),
            stability_pool_total_shares: 0,
            stability_pool_total_nusd: 0,
            stability_pool_epoch: 0,
        }
    }

    pub fn owner_id(&self) -> (r: AccountId)
        ensures
            r == self.owner_id,
    {
        self.owner_id
    }

    pub fn intent_router_id(&self) -> (r: AccountId)
        ensures
            r == self.intent_router_id,
    {
        self.intent_router_id
    }

    pub fn pyth_oracle_id(&self) -> (r: AccountId)
        ensures
            r == self.pyth_oracle_id,
    {
        self.pyth_oracle_id
    }

    /// All registered collateral assets, in registration order.
    pub fn list_collateral_tokens(&self) -> (r: Vec<TokenId>)
        ensures
            r@.len() == self.configs.entries@.len(),
            forall|i: int| 0 <= i < r@.len() ==> r@[i] == self.configs.entries@[i].0,
    {
        let n = self.configs.len();
        let mut tokens: Vec<TokenId> = Vec::new();
        let mut i: usize = 0;
        while i < n
            invariant
                n == self.configs.entries@.len(),
                i <= n,
                tokens@.len() == i,
                forall|j: int| 0 <= j < i ==> tokens@[j] == self.configs.entries@[j].0,
            decreases n - i,
        {
            tokens.push(self.configs.key_at(i));
            i = i + 1;
        }
        tokens
    }

    pub fn get_collateral_config(&self, token_id: TokenId) -> (r: Option<CollateralConfig>)
        requires
            self.wf(),
        ensures
            r == self.config_of(token_id),
    {
        self.configs.get(token_id)
    }

    pub fn get_price(&self, collateral_id: TokenId) -> (r: Option<PriceFeed>)
        requires
            self.wf(),
        ensures
            r == self.price_of(collateral_id),
    {
        self.price_feeds.get(collateral_id)
    }

    pub fn get_trove(&self, owner_id: AccountId, collateral_id: TokenId) -> (r: Option<Trove>)
        requires
            self.wf(),
        ensures
            r == self.trove_of(owner_id, collateral_id),
    {
        self.troves.get(owner_id, collateral_id)
    }

    pub fn get_total_debt(&self, collateral_id: TokenId) -> (r: Balance)
        requires
            self.wf(),
        ensures
            r == self.total_debt_val(collateral_id),
    {
        match self.total_debt.get(collateral_id) {
            Some(v) => v,
            None => 0,
        }
    }

    pub fn get_stability_pool_balance(&self) -> (r: Balance)
        ensures
            r == self.stability_pool_total_nusd,
    {
        self.stability_pool_total_nusd
    }

    /// Why `register_collateral` would be rejected, if it would be.
    pub open spec fn register_err(
        self,
        caller: AccountId,
        token_id: TokenId,
        config: CollateralConfig,
    ) -> Option<CdpError> {
        if caller != self.owner_id {
            Some(CdpError::Unauthorized)
        } else if config.min_collateral_ratio_bps < 1100 {
            Some(CdpError::McrTooLow)
        } else if config.recovery_collateral_ratio_bps < config.min_collateral_ratio_bps {
            Some(CdpError::RecoveryBelowMcr)
        } else if self.total_debt_val(token_id) > config.debt_ceiling {
            Some(CdpError::CeilingExceeded)
        } else {
            None
        }
    }

    /// Registers or replaces the risk parameters of a collateral asset.
    /// Administrator only.  Rejects a minimum ratio under 1100 bps, a
    /// recovery ratio under the minimum, and a ceiling below the asset's
    /// already-outstanding debt.  The last check goes beyond the usual
    /// ceiling enforcement at borrow time: without it a replacement
    /// configuration could leave an asset's recorded total above its own
    /// ceiling, breaking the ceiling invariant the ledger maintains.
    pub fn register_collateral(
        &mut self,
        caller: AccountId,
        token_id: TokenId,
        config: CollateralConfig,
    ) -> (r: Result<(), CdpError>)
        requires
            old(self).wf(),
        ensures
            final(self).wf(),
            match r {
                Ok(()) => {
                    &&& old(self).register_err(caller, token_id, config) is None
                    &&& final(self).configs.m() == old(self).configs.m().insert(token_id, config)
                    &&& Self::frame_configs(*old(self), *final(self))
                },
                Err(e) => old(self).register_err(caller, token_id, config) == Some(e)
                    && *final(self) == *old(self),
            },
    {
        if caller != self.owner_id {
            return Err(CdpError::Unauthorized);
        }
        if config.min_collateral_ratio_bps < 1100 {
            return Err(CdpError::McrTooLow);
        }
        if config.recovery_collateral_ratio_bps < config.min_collateral_ratio_bps {
            return Err(CdpError::RecoveryBelowMcr);
        }
        let current_total = self.get_total_debt(token_id);
        if current_total > config.debt_ceiling {
            return Err(CdpError::CeilingExceeded);
        }
        self.configs.set(token_id, config);
        proof {
            assert forall|a: u64| self.total_debt_val(a) == debt_sum(
                self.troves.entries@,
                a,
            ) by {
                assert(old(self).total_debt_val(a) == debt_sum(old(self).troves.entries@, a));
            }
            assert forall|k: (u64, u64)| #[trigger]
                self.epoch_reward_cutoff.m().contains_key(
                    k,
                ) implies self.reward_per_share.m().contains_key(k.1) by {
                assert(old(self).epoch_reward_cutoff.m().contains_key(k));
            }
            assert forall|a: u64| #[trigger]
                self.configs.m().contains_key(a) implies self.total_debt_val(a)
                <= self.configs.m()[a].debt_ceiling by {
                if a != token_id {
                    assert(old(self).configs.m().contains_key(a));
                }
            }
            assert forall|a: u64| #[trigger]
                self.configs.m().contains_key(a) implies self.configs.m()[a].min_collateral_ratio_bps >= 1100
                && self.configs.m()[a].recovery_collateral_ratio_bps
                >= self.configs.m()[a].min_collateral_ratio_bps by {
                if a != token_id {
                    assert(old(self).configs.m().contains_key(a));
                }
            }
        }
        Ok(())
    }

    /// Why `submit_price` would be rejected, if it would be.
    pub open spec fn submit_price_err(
        self,
        caller: AccountId,
        price: Balance,
        decimals: u8,
    ) -> Option<CdpError> {
        if caller != self.pyth_oracle_id {
            Some(CdpError::Unauthorized)
        } else if decimals > 18 {
            Some(CdpError::InvalidDecimals)
        } else if price == 0 {
            Some(CdpError::InvalidPrice)
        } else {
            None
        }
    }

    /// Overwrites the price feed of an asset.  Oracle only.  Rejects more
    /// than 18 decimals and a zero price.
    pub fn submit_price(
        &mut self,
        caller: AccountId,
        collateral_id: TokenId,
        price: Balance,
        decimals: u8,
        now_ms: u64,
    ) -> (r: Result<(), CdpError>)
        requires
            old(self).wf(),
        ensures
            final(self).wf(),
            match r {
                Ok(()) => {
                    &&& old(self).submit_price_err(caller, price, decimals) is None
                    &&& final(self).price_feeds.m() == old(self).price_feeds.m().insert(
                        collateral_id,
                        PriceFeed { price, decimals, last_update_timestamp: now_ms },
                    )
                    &&& Self::frame_prices(*old(self), *final(self))
                },
                Err(e) => old(self).submit_price_err(caller, price, decimals) == Some(e)
                    && *final(self) == *old(self),
            },
    {
        if caller != self.pyth_oracle_id {
            return Err(CdpError::Unauthorized);
        }
        if decimals > 18 {
            return Err(CdpError::InvalidDecimals);
        }
        if price == 0 {
            return Err(CdpError::InvalidPrice);
        }
        let feed = PriceFeed { price, decimals, last_update_timestamp: now_ms };
        self.price_feeds.set(collateral_id, feed);
        proof {
            assert forall|a: u64| self.total_debt_val(a) == debt_sum(
                self.troves.entries@,
                a,
            ) by {
                assert(old(self).total_debt_val(a) == debt_sum(old(self).troves.entries@, a));
            }
            assert forall|k: (u64, u64)| #[trigger]
                self.epoch_reward_cutoff.m().contains_key(
                    k,
                ) implies self.reward_per_share.m().contains_key(k.1) by {
                assert(old(self).epoch_reward_cutoff.m().contains_key(k));
            }
            assert forall|a: u64| #[trigger]
                self.price_feeds.m().contains_key(a) implies self.price_feeds.m()[a].price > 0
                && self.price_feeds.m()[a].decimals <= 18 by {
                if a != collateral_id {
                    assert(old(self).price_feeds.m().contains_key(a));
                }
            }
        }
        Ok(())
    }
}

} // verus!
