//! Sums over map entries: the total debt of one asset's troves, and the
//! share total of the stability-pool deposits of one epoch.
//!
//! These back the engine's bookkeeping invariants: the recorded per-asset
//! debt total always equals the sum over the troves, and the pool's recorded
//! share total always equals the sum over the fresh deposits.

use vstd::prelude::*;

use crate::types::{StabilityDeposit, Trove};

verus! {

/// What one trove entry contributes to the debt total of `asset`.
pub open spec fn debt_contrib(e: ((u64, u64), Trove), asset: u64) -> int {
    if e.0.1 == asset {
        e.1.debt_amount as int
    } else {
        0
    }
}

/// The summed debt of all troves of `asset`.
pub open spec fn debt_sum(s: Seq<((u64, u64), Trove)>, asset: u64) -> int
    decreases s.len(),
{
    if s.len() == 0 {
        0
    } else {
        debt_sum(s.drop_last(), asset) + debt_contrib(s.last(), asset)
    }
}

pub proof fn lemma_debt_sum_nonneg(s: Seq<((u64, u64), Trove)>, asset: u64)
    ensures
        debt_sum(s, asset) >= 0,
    decreases s.len(),
{
    if s.len() > 0 {
        lemma_debt_sum_nonneg(s.drop_last(), asset);
    }
}

pub proof fn lemma_debt_sum_push(s: Seq<((u64, u64), Trove)>, e: ((u64, u64), Trove), asset: u64)
    ensures
        debt_sum(s.push(e), asset) == debt_sum(s, asset) + debt_contrib(e, asset),
{
    assert(s.push(e).drop_last() =~= s);
}

pub proof fn lemma_debt_sum_update(
    s: Seq<((u64, u64), Trove)>,
    i: int,
    e: ((u64, u64), Trove),
    asset: u64,
)
    requires
        0 <= i < s.len(),
    ensures
        debt_sum(s.update(i, e), asset) == debt_sum(s, asset) - debt_contrib(s[i], asset)
            + debt_contrib(e, asset),
    decreases s.len(),
{
    if i == s.len() - 1 {
        assert(s.update(i, e).drop_last() =~= s.drop_last());
        assert(s.update(i, e).last() == e);
    } else {
        assert(s.update(i, e).drop_last() =~= s.drop_last().update(i, e));
        assert(s.update(i, e).last() == s.last());
        lemma_debt_sum_update(s.drop_last(), i, e, asset);
    }
}

pub proof fn lemma_debt_sum_remove(s: Seq<((u64, u64), Trove)>, i: int, asset: u64)
    requires
        0 <= i < s.len(),
    ensures
        debt_sum(s.remove(i), asset) == debt_sum(s, asset) - debt_contrib(s[i], asset),
    decreases s.len(),
{
    if i == s.len() - 1 {
        assert(s.remove(i) =~= s.drop_last());
    } else {
        assert(s.remove(i).drop_last() =~= s.drop_last().remove(i));
        assert(s.remove(i).last() == s.last());
        lemma_debt_sum_remove(s.drop_last(), i, asset);
    }
}

/// Each entry's contribution is bounded by the whole sum.
pub proof fn lemma_debt_sum_bound(s: Seq<((u64, u64), Trove)>, i: int, asset: u64)
    requires
        0 <= i < s.len(),
    ensures
        debt_contrib(s[i], asset) <= debt_sum(s, asset),
    decreases s.len(),
{
    lemma_debt_sum_nonneg(s, asset);
    if i == s.len() - 1 {
        lemma_debt_sum_nonneg(s.drop_last(), asset);
    } else {
        lemma_debt_sum_bound(s.drop_last(), i, asset);
    }
}

/// What one deposit entry contributes to the share total of `epoch`.
pub open spec fn shares_contrib(e: (u64, StabilityDeposit), epoch: u64) -> int {
    if e.1.epoch == epoch {
        e.1.shares as int
    } else {
        0
    }
}

/// The summed shares of all deposits belonging to `epoch`.
pub open spec fn shares_sum(s: Seq<(u64, StabilityDeposit)>, epoch: u64) -> int
    decreases s.len(),
{
    if s.len() == 0 {
        0
    } else {
        shares_sum(s.drop_last(), epoch) + shares_contrib(s.last(), epoch)
    }
}

pub proof fn lemma_shares_sum_nonneg(s: Seq<(u64, StabilityDeposit)>, epoch: u64)
    ensures
        shares_sum(s, epoch) >= 0,
    decreases s.len(),
{
    if s.len() > 0 {
        lemma_shares_sum_nonneg(s.drop_last(), epoch);
    }
}

pub proof fn lemma_shares_sum_push(
    s: Seq<(u64, StabilityDeposit)>,
    e: (u64, StabilityDeposit),
    epoch: u64,
)
    ensures
        shares_sum(s.push(e), epoch) == shares_sum(s, epoch) + shares_contrib(e, epoch),
{
    assert(s.push(e).drop_last() =~= s);
}

pub proof fn lemma_shares_sum_update(
    s: Seq<(u64, StabilityDeposit)>,
    i: int,
    e: (u64, StabilityDeposit),
    epoch: u64,
)
    requires
        0 <= i < s.len(),
    ensures
        shares_sum(s.update(i, e), epoch) == shares_sum(s, epoch) - shares_contrib(s[i], epoch)
            + shares_contrib(e, epoch),
    decreases s.len(),
{
    if i == s.len() - 1 {
        assert(s.update(i, e).drop_last() =~= s.drop_last());
        assert(s.update(i, e).last() == e);
    } else {
        assert(s.update(i, e).drop_last() =~= s.drop_last().update(i, e));
        assert(s.update(i, e).last() == s.last());
        lemma_shares_sum_update(s.drop_last(), i, e, epoch);
    }
}

/// A sequence with no deposit of `epoch` sums to zero.
pub proof fn lemma_shares_sum_stale(s: Seq<(u64, StabilityDeposit)>, epoch: u64)
    requires
        forall|i: int| 0 <= i < s.len() ==> s[i].1.epoch != epoch,
    ensures
        shares_sum(s, epoch) == 0,
    decreases s.len(),
{
    if s.len() > 0 {
        lemma_shares_sum_stale(s.drop_last(), epoch);
    }
}

/// Each entry's contribution is bounded by the whole sum.
pub proof fn lemma_shares_sum_bound(s: Seq<(u64, StabilityDeposit)>, i: int, epoch: u64)
    requires
        0 <= i < s.len(),
    ensures
        shares_contrib(s[i], epoch) <= shares_sum(s, epoch),
    decreases s.len(),
{
    lemma_shares_sum_nonneg(s, epoch);
    if i == s.len() - 1 {
        lemma_shares_sum_nonneg(s.drop_last(), epoch);
    } else {
        lemma_shares_sum_bound(s.drop_last(), i, epoch);
    }
}

} // verus!
