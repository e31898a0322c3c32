//! The engine's global laws, stated and proved once over the state model:
//! debt-total consistency, share-price dilution under liquidation, the
//! pool's coverage of its depositors' value, reward isolation of fresh
//! deposits, the share round-trip bound, and idempotence of liquidation.

use vstd::prelude::*;

use crate::contract::Contract;
use crate::liquidation::{liq_step, LiqModel};
use crate::math::REWARD_SCALE;
use crate::sums::{debt_sum, shares_sum};
use crate::types::{AccountId, Balance, CollateralConfig, PriceFeed, StabilityDeposit, TokenId};

verus! {

impl Contract {
    /// The recorded debt total of every asset always equals the sum of the
    /// debts of that asset's troves, and never exceeds the asset's
    /// registered debt ceiling.
    pub proof fn lemma_total_debt_consistency(self, collateral_id: TokenId)
        requires
            self.wf(),
        ensures
            self.total_debt_val(collateral_id) == debt_sum(self.troves.entries@, collateral_id),
            self.configs.m().contains_key(collateral_id) ==> self.total_debt_val(collateral_id)
                <= self.configs.m()[collateral_id].debt_ceiling,
    {
    }

    /// An account of the current pool generation whose reward-debt
    /// snapshot already sits at the current accumulator value is owed
    /// nothing: a deposit made strictly after a distribution receives no
    /// share of it.
    pub proof fn lemma_new_deposit_owes_nothing(self, account: AccountId, collateral_id: TokenId)
        requires
            self.settle_basis(account).epoch == self.stability_pool_epoch,
            self.reward_debt_val(account, collateral_id) == self.rps_val(collateral_id),
        ensures
            self.pending_of(account, collateral_id) == 0,
    {
    }

    /// An account settled before a distribution receives exactly its
    /// pro-rata share of it once settled again: with the accumulator moved
    /// by `rps_delta(dist)`, the pending reward is
    /// `shares * rps_delta(dist) / SCALE`.
    pub proof fn lemma_prior_deposit_full_share(
        self,
        after: Contract,
        account: AccountId,
        collateral_id: TokenId,
        dist: Balance,
    )
        requires
            self.stability_pool_total_shares > 0,
            self.settle_basis(account).epoch == self.stability_pool_epoch,
            after.rps_val(collateral_id) == self.rps_val(collateral_id) + self.rps_delta(dist),
            after.reward_debt_val(account, collateral_id) == self.reward_debt_val(
                account,
                collateral_id,
            ),
            after.deposit_of(account) == self.deposit_of(account),
            after.stability_pool_epoch == self.stability_pool_epoch,
            self.reward_debt_val(account, collateral_id) == self.rps_val(collateral_id),
        ensures
            after.pending_of(account, collateral_id) == self.settle_basis(account).shares
                * self.rps_delta(dist) / (REWARD_SCALE as int),
    {
        let delta = self.rps_delta(dist);
        assert(delta >= 0) by {
            vstd::arithmetic::div_mod::lemma_div_is_ordered(
                0,
                dist * REWARD_SCALE,
                self.stability_pool_total_shares as int,
            );
            vstd::arithmetic::mul::lemma_mul_nonnegative(
                dist as int,
                REWARD_SCALE as int,
            );
        }
        let sh = self.settle_basis(account).shares;
        if delta == 0 {
            assert(sh * 0 == 0) by {
                vstd::arithmetic::mul::lemma_mul_basics(sh as int);
            }
        } else {
            assert(after.settle_basis(account) == self.settle_basis(account));
        }
    }

    /// Once a pool generation has been drained, what a deposit left over
    /// from it is owed is frozen at that generation's cutoff: later
    /// distributions, however large, change its pending reward not at all.
    pub proof fn lemma_stale_deposit_isolated(
        self,
        after: Contract,
        account: AccountId,
        collateral_id: TokenId,
    )
        requires
            self.settle_basis(account).epoch != self.stability_pool_epoch,
            after.deposit_of(account) == self.deposit_of(account),
            after.reward_debt_val(account, collateral_id) == self.reward_debt_val(
                account,
                collateral_id,
            ),
            after.stability_pool_epoch == self.stability_pool_epoch,
            after.cutoff_val(self.settle_basis(account).epoch, collateral_id) == self.cutoff_val(
                self.settle_basis(account).epoch,
                collateral_id,
            ),
        ensures
            after.pending_of(account, collateral_id) == self.pending_of(account, collateral_id),
    {
        assert(after.settle_basis(account) == self.settle_basis(account));
    }

    /// Every depositor's current value equals the pooled balance up to
    /// integer-truncation dust: the summed value of all fresh deposits
    /// never exceeds the pooled balance, and falls short of it by at most
    /// one unit per deposit record.
    pub proof fn lemma_pool_value_covered(self)
        requires
            self.wf(),
            self.stability_pool_total_shares > 0,
        ensures
            deposit_value_sum(
                self.stability_pool_deposits.entries@,
                self.stability_pool_epoch,
                self.stability_pool_total_nusd,
                self.stability_pool_total_shares,
            ) <= self.stability_pool_total_nusd,
            deposit_value_sum(
                self.stability_pool_deposits.entries@,
                self.stability_pool_epoch,
                self.stability_pool_total_nusd,
                self.stability_pool_total_shares,
            ) >= self.stability_pool_total_nusd - self.stability_pool_deposits.entries@.len(),
    {
        let s = self.stability_pool_deposits.entries@;
        let epoch = self.stability_pool_epoch;
        let pool = self.stability_pool_total_nusd;
        let cap = self.stability_pool_total_shares;
        lemma_value_sum_bounded(s, epoch, pool, cap);
        lemma_value_sum_lower(s, epoch, pool, cap);
        assert(shares_sum(s, epoch) == cap);
        crate::pool::lemma_available_le_pool(cap as int, cap as int, pool as int);
        vstd::arithmetic::mul::lemma_mul_is_commutative(cap as int, pool as int);
        vstd::arithmetic::div_mod::lemma_div_multiples_vanish(pool as int, cap as int);
        assert((cap as int) * (pool as int) / (cap as int) == pool as int);
    }
}

/// The summed current value of the deposits belonging to `epoch`.
pub open spec fn deposit_value_sum(
    s: Seq<(u64, StabilityDeposit)>,
    epoch: u64,
    nusd: Balance,
    shares_tot: Balance,
) -> int
    decreases s.len(),
{
    if s.len() == 0 {
        0
    } else {
        deposit_value_sum(s.drop_last(), epoch, nusd, shares_tot) + (if s.last().1.epoch == epoch {
            s.last().1.amount_spec(nusd, shares_tot)
        } else {
            0
        })
    }
}

/// Truncating division is superadditive in the numerator.
pub proof fn lemma_div_add_le(a: int, b: int, d: int)
    requires
        a >= 0,
        b >= 0,
        d > 0,
    ensures
        a / d + b / d <= (a + b) / d,
{
    vstd::arithmetic::div_mod::lemma_hoist_over_denominator(a, b / d, d as nat);
    vstd::arithmetic::div_mod::lemma_fundamental_div_mod(b, d);
    vstd::arithmetic::mul::lemma_mul_is_commutative(b / d, d);
    vstd::arithmetic::div_mod::lemma_div_is_ordered(a + (b / d) * d, a + b, d);
}

/// ... and splitting a numerator loses at most one unit to truncation.
pub proof fn lemma_div_add_ub(a: int, b: int, d: int)
    requires
        a >= 0,
        b >= 0,
        d > 0,
    ensures
        (a + b) / d <= a / d + b / d + 1,
{
    vstd::arithmetic::div_mod::lemma_fundamental_div_mod(b, d);
    vstd::arithmetic::mul::lemma_mul_is_commutative(b / d, d);
    vstd::arithmetic::div_mod::lemma_hoist_over_denominator(a + b % d, b / d, d as nat);
    assert(a + b % d + (b / d) * d == a + b);
    assert((a + b) / d == (a + b % d) / d + b / d);
    vstd::arithmetic::div_mod::lemma_div_is_ordered(a + b % d, a + d, d);
    vstd::arithmetic::div_mod::lemma_hoist_over_denominator(a, 1, d as nat);
    assert((a + d) / d == a / d + 1);
}

/// Converting an amount to shares at the pool's price and back returns at
/// most the original amount, and the truncation loss is bounded by one
/// share's worth plus one unit: no net value is created, and none beyond
/// dust is lost, across deposit/withdraw cycles at a stable price.
pub proof fn lemma_amount_round_trip(total_shares: Balance, total_nusd: Balance, amount: Balance)
    requires
        total_shares > 0,
        total_nusd > 0,
    ensures
        ({
            let minted = amount * total_shares / (total_nusd as int);
            let back = minted * total_nusd / (total_shares as int);
            back <= amount && amount - back <= (total_nusd as int) / (total_shares as int) + 1
        }),
{
    let cap = total_shares as int;
    let pool = total_nusd as int;
    let a = amount as int;
    let minted = a * cap / pool;
    vstd::arithmetic::mul::lemma_mul_nonnegative(a, cap);
    vstd::arithmetic::div_mod::lemma_div_is_ordered(0, a * cap, pool);
    assert(minted >= 0);
    vstd::arithmetic::div_mod::lemma_fundamental_div_mod(a * cap, pool);
    assert(pool * minted <= a * cap);
    assert(pool * minted == minted * pool) by {
        vstd::arithmetic::mul::lemma_mul_is_commutative(pool, minted);
    }
    vstd::arithmetic::div_mod::lemma_div_is_ordered(minted * pool, a * cap, cap);
    vstd::arithmetic::div_mod::lemma_div_multiples_vanish(a, cap);
    assert(cap * a == a * cap) by {
        vstd::arithmetic::mul::lemma_mul_is_commutative(cap, a);
    }
    assert(a * cap / cap == a);
    let back = minted * pool / cap;
    assert(back <= a);
    // The lower bound: the division dropped less than one full unit of
    // pool backing, so converting back recovers all but dust.
    assert(minted * pool + pool >= a * cap) by {
        assert(pool * minted + a * cap % pool == a * cap);
    }
    lemma_div_add_ub(minted * pool, pool, cap);
    vstd::arithmetic::div_mod::lemma_div_is_ordered(a * cap, minted * pool + pool, cap);
    assert((minted * pool + pool) / cap <= back + pool / cap + 1);
    assert(a <= back + pool / cap + 1);
}

/// The summed deposit value loses at most one unit per deposit record to
/// truncation: together with the upper bound, the depositors' total value
/// equals the pooled balance up to that dust.
pub proof fn lemma_value_sum_lower(
    s: Seq<(u64, StabilityDeposit)>,
    epoch: u64,
    nusd: Balance,
    shares_tot: Balance,
)
    requires
        shares_tot > 0,
    ensures
        deposit_value_sum(s, epoch, nusd, shares_tot) >= shares_sum(s, epoch) * nusd / (
        shares_tot as int) - s.len(),
    decreases s.len(),
{
    crate::sums::lemma_shares_sum_nonneg(s, epoch);
    if s.len() == 0 {
        vstd::arithmetic::div_mod::lemma_div_is_ordered(0, 0, shares_tot as int);
    } else {
        let rest = s.drop_last();
        let e = s.last();
        lemma_value_sum_lower(rest, epoch, nusd, shares_tot);
        crate::sums::lemma_shares_sum_nonneg(rest, epoch);
        if e.1.epoch == epoch {
            let c = e.1.shares as int;
            assert(e.1.amount_spec(nusd, shares_tot) == c * nusd / (shares_tot as int)) by {
                if e.1.shares == 0 || nusd == 0 {
                    assert(c * nusd == 0) by {
                        vstd::arithmetic::mul::lemma_mul_basics(c);
                        vstd::arithmetic::mul::lemma_mul_basics(nusd as int);
                        vstd::arithmetic::mul::lemma_mul_is_commutative(c, nusd as int);
                    }
                    vstd::arithmetic::div_mod::lemma_div_is_ordered(0, 0, shares_tot as int);
                }
            }
            vstd::arithmetic::mul::lemma_mul_nonnegative(shares_sum(rest, epoch), nusd as int);
            vstd::arithmetic::mul::lemma_mul_nonnegative(c, nusd as int);
            lemma_div_add_ub(shares_sum(rest, epoch) * nusd, c * nusd, shares_tot as int);
            assert((shares_sum(rest, epoch) + c) * nusd == shares_sum(rest, epoch) * nusd + c
                * nusd) by {
                vstd::arithmetic::mul::lemma_mul_is_distributive_add_other_way(
                    nusd as int,
                    shares_sum(rest, epoch),
                    c,
                );
            }
        }
    }
}

/// The summed deposit value is bounded by the value of the summed shares.
pub proof fn lemma_value_sum_bounded(
    s: Seq<(u64, StabilityDeposit)>,
    epoch: u64,
    nusd: Balance,
    shares_tot: Balance,
)
    requires
        shares_tot > 0,
    ensures
        deposit_value_sum(s, epoch, nusd, shares_tot) <= shares_sum(s, epoch) * nusd / (
        shares_tot as int),
    decreases s.len(),
{
    crate::sums::lemma_shares_sum_nonneg(s, epoch);
    if s.len() == 0 {
        vstd::arithmetic::div_mod::lemma_div_is_ordered(0, 0, shares_tot as int);
    } else {
        let rest = s.drop_last();
        let e = s.last();
        lemma_value_sum_bounded(rest, epoch, nusd, shares_tot);
        crate::sums::lemma_shares_sum_nonneg(rest, epoch);
        vstd::arithmetic::mul::lemma_mul_nonnegative(
            shares_sum(rest, epoch),
            nusd as int,
        );
        if e.1.epoch == epoch {
            let c = e.1.shares as int;
            assert(e.1.amount_spec(nusd, shares_tot) <= c * nusd / (shares_tot as int)) by {
                if e.1.shares == 0 || nusd == 0 {
                    vstd::arithmetic::mul::lemma_mul_nonnegative(c, nusd as int);
                    vstd::arithmetic::div_mod::lemma_div_is_ordered(
                        0,
                        c * nusd,
                        shares_tot as int,
                    );
                }
            }
            vstd::arithmetic::mul::lemma_mul_nonnegative(c, nusd as int);
            lemma_div_add_le(shares_sum(rest, epoch) * nusd, c * nusd, shares_tot as int);
            assert((shares_sum(rest, epoch) + c) * nusd == shares_sum(rest, epoch) * nusd + c
                * nusd) by {
                vstd::arithmetic::mul::lemma_mul_is_distributive_add_other_way(
                    nusd as int,
                    shares_sum(rest, epoch),
                    c,
                );
            }
        }
    }
}

/// Liquidation dilutes the stability pool's share price or leaves it
/// unchanged, and never changes the share total except by resetting it on
/// depletion: cross-multiplied, the post-step price never exceeds the
/// pre-step price.
pub proof fn lemma_liquidation_dilutes_share_price(
    m: LiqModel,
    owner: AccountId,
    collateral_id: TokenId,
    feed: PriceFeed,
    cfg: CollateralConfig,
    m2: LiqModel,
    counted: bool,
)
    requires
        m.pool_nusd >= 0,
        m.pool_shares >= 0,
        liq_step(m, owner, collateral_id, feed, cfg) == Result::<
            (LiqModel, bool),
            crate::errors::CdpError,
        >::Ok((m2, counted)),
    ensures
        m2.pool_nusd <= m.pool_nusd,
        m2.pool_nusd >= 0,
        m2.pool_shares == m.pool_shares || m2.pool_shares == 0,
        m2.pool_shares >= 0,
        m2.pool_shares > 0 ==> m2.pool_nusd * m.pool_shares <= m.pool_nusd * m2.pool_shares,
{
    if m2.pool_shares > 0 {
        assert(m2.pool_shares == m.pool_shares);
        vstd::arithmetic::mul::lemma_mul_inequality(m2.pool_nusd, m.pool_nusd, m.pool_shares);
        vstd::arithmetic::mul::lemma_mul_is_commutative(m2.pool_nusd, m.pool_shares);
        vstd::arithmetic::mul::lemma_mul_is_commutative(m.pool_nusd, m2.pool_shares);
    }
}

/// The batch form: a whole liquidation call never raises the share price
/// and only ever resets the share total by depleting the pool.
pub proof fn lemma_batch_dilutes_share_price(
    m: LiqModel,
    owners: Seq<AccountId>,
    collateral_id: TokenId,
    feed: PriceFeed,
    cfg: CollateralConfig,
    m2: LiqModel,
    count: int,
)
    requires
        m.pool_nusd >= 0,
        m.pool_shares >= 0,
        crate::liquidation::liq_fold(m, owners, collateral_id, feed, cfg) == Result::<
            (LiqModel, int),
            crate::errors::CdpError,
        >::Ok((m2, count)),
    ensures
        m2.pool_nusd <= m.pool_nusd,
        m2.pool_nusd >= 0,
        m2.pool_shares == m.pool_shares || m2.pool_shares == 0,
        m2.pool_shares >= 0,
        m2.pool_shares > 0 ==> m2.pool_nusd * m.pool_shares <= m.pool_nusd * m2.pool_shares,
    decreases owners.len(),
{
    if owners.len() > 0 {
        let step_input = crate::liquidation::liq_fold(
            m,
            owners.drop_last(),
            collateral_id,
            feed,
            cfg,
        );
        let (m1, c1) = step_input.unwrap();
        lemma_batch_dilutes_share_price(m, owners.drop_last(), collateral_id, feed, cfg, m1, c1);
        let stepped = liq_step(m1, owners.last(), collateral_id, feed, cfg);
        let (mf, b) = stepped.unwrap();
        lemma_liquidation_dilutes_share_price(
            m1,
            owners.last(),
            collateral_id,
            feed,
            cfg,
            mf,
            b,
        );
        if m2.pool_shares > 0 {
            assert(m1.pool_shares == m.pool_shares && m2.pool_shares == m.pool_shares);
            vstd::arithmetic::mul::lemma_mul_inequality(m2.pool_nusd, m.pool_nusd, m.pool_shares);
            vstd::arithmetic::mul::lemma_mul_is_commutative(m2.pool_nusd, m.pool_shares);
            vstd::arithmetic::mul::lemma_mul_is_commutative(m.pool_nusd, m2.pool_shares);
        }
    }
}

/// Liquidation is idempotent per owner: once a trove has been liquidated
/// within a batch, a later occurrence of the same owner is skipped and not
/// counted again.
pub proof fn lemma_liquidation_idempotent(
    m: LiqModel,
    owner: AccountId,
    collateral_id: TokenId,
    feed: PriceFeed,
    cfg: CollateralConfig,
    m2: LiqModel,
)
    requires
        liq_step(m, owner, collateral_id, feed, cfg) == Result::<
            (LiqModel, bool),
            crate::errors::CdpError,
        >::Ok((m2, true)),
    ensures
        liq_step(m2, owner, collateral_id, feed, cfg) == Result::<
            (LiqModel, bool),
            crate::errors::CdpError,
        >::Ok((m2, false)),
{
    assert(!m2.troves.contains_key((owner, collateral_id)));
}

/// A deposit into a non-empty pool converts back to at most what was put
/// in: minting `amount * shares / pool` shares and valuing them at the
/// post-deposit pool returns the original amount less truncation dust
/// only.  (An empty pool bootstraps at one share per unit, exactly.)
pub proof fn lemma_shares_round_trip(total_shares: Balance, total_nusd: Balance, amount: Balance)
    requires
        total_shares > 0,
        total_nusd > 0,
    ensures
        ({
            let minted = amount * total_shares / (total_nusd as int);
            minted * (total_nusd + amount) / (total_shares + minted) <= amount
        }),
{
    let cap = total_shares as int;
    let pool = total_nusd as int;
    let a = amount as int;
    let minted = a * cap / pool;
    vstd::arithmetic::mul::lemma_mul_nonnegative(a, cap);
    vstd::arithmetic::div_mod::lemma_div_is_ordered(0, a * cap, pool);
    assert(minted >= 0);
    vstd::arithmetic::div_mod::lemma_fundamental_div_mod(a * cap, pool);
    assert(pool * minted <= a * cap);
    assert(minted * (pool + a) == minted * pool + minted * a) by {
        vstd::arithmetic::mul::lemma_mul_is_distributive_add(minted, pool, a);
    }
    assert(minted * pool == pool * minted) by {
        vstd::arithmetic::mul::lemma_mul_is_commutative(minted, pool);
    }
    assert(a * cap + minted * a == a * (cap + minted)) by {
        vstd::arithmetic::mul::lemma_mul_is_distributive_add(a, cap, minted);
        vstd::arithmetic::mul::lemma_mul_is_commutative(minted, a);
    }
    assert(minted * (pool + a) <= a * (cap + minted));
    vstd::arithmetic::div_mod::lemma_div_is_ordered(
        minted * (pool + a),
        a * (cap + minted),
        cap + minted,
    );
    vstd::arithmetic::div_mod::lemma_div_multiples_vanish(a, cap + minted);
    assert((cap + minted) * a == a * (cap + minted)) by {
        vstd::arithmetic::mul::lemma_mul_is_commutative(cap + minted, a);
    }
    assert(a * (cap + minted) / (cap + minted) == a);
}

} // verus!
