use cdp_core::contract::Contract;
use cdp_core::types::{CollateralConfig, StabilityPoolMode};

const OWNER: u64 = 1;
const ROUTER: u64 = 2;
const ORACLE: u64 = 3;
const BORROWER: u64 = 10;
const LIQUIDATED: u64 = 11;
const LATE_DEPOSITOR: u64 = 12;
const TARGET: u64 = 13;
const COLLATERAL: u64 = 100;

fn default_config() -> CollateralConfig {
    CollateralConfig {
        oracle_price_id: 7,
        min_collateral_ratio_bps: 1300,
        recovery_collateral_ratio_bps: 1500,
        debt_ceiling: 1_000_000_000_000,
        liquidation_penalty_bps: 50,
        stability_pool_mode: StabilityPoolMode::Dedicated,
    }
}

fn setup_contract() -> Contract {
    let mut contract = Contract::new(OWNER, ROUTER, ORACLE);
    contract
        .register_collateral(OWNER, COLLATERAL, default_config())
        .expect("register should succeed");
    contract
        .submit_price(ORACLE, COLLATERAL, 20000, 2, 0)
        .expect("price submission should succeed");
    contract
}

fn open_trove_for(contract: &mut Contract, borrower: u64, collateral: u128, debt: u128) {
    contract
        .deposit_collateral(borrower, COLLATERAL, collateral, 0)
        .expect("collateral deposit should succeed");
    contract
        .borrow(borrower, COLLATERAL, debt, 0)
        .expect("borrow should succeed");
}

#[test]
fn borrow_and_repay_flow() {
    let mut contract = setup_contract();
    // The stablecoin ledger is an external collaborator; mirror the mint
    // and burn instructions the engine issues.
    let mut nusd_balance: u128 = 0;

    contract
        .deposit_collateral(BORROWER, COLLATERAL, 10_000, 0)
        .expect("collateral deposit should succeed");

    contract
        .borrow(BORROWER, COLLATERAL, 4_000, 0)
        .expect("borrow should succeed");
    nusd_balance += 4_000;
    assert_eq!(nusd_balance, 4_000);

    contract
        .repay(BORROWER, COLLATERAL, 1_000, 0)
        .expect("repay should succeed");
    nusd_balance -= 1_000;
    assert_eq!(nusd_balance, 3_000);
    let trove = contract
        .get_trove(BORROWER, COLLATERAL)
        .expect("trove missing");
    assert_eq!(trove.debt_amount, 3_000);

    contract
        .withdraw_collateral(BORROWER, COLLATERAL, 1_000, None, 0)
        .expect("withdraw should succeed");
}

#[test]
fn borrow_flow_smoke_test() {
    let mut contract = setup_contract();
    open_trove_for(&mut contract, BORROWER, 10_000, 4_000);

    let trove = contract
        .get_trove(BORROWER, COLLATERAL)
        .expect("trove should exist after borrowing");
    assert_eq!(trove.debt_amount, 4_000, "expected nUSD minted to borrower");
    assert_eq!(trove.collateral_amount, 10_000);
}

#[test]
fn liquidation_guard_prevents_withdraw_after_price_drop() {
    let mut contract = setup_contract();
    open_trove_for(&mut contract, BORROWER, 10_000, 4_000);

    contract
        .submit_price(ORACLE, COLLATERAL, 5, 2, 1)
        .expect("price submission should succeed");

    let err = contract
        .withdraw_collateral(BORROWER, COLLATERAL, 1_000, None, 1)
        .expect_err("withdraw should fail");
    assert_eq!(
        err,
        cdp_core::errors::CdpError::BelowMcr,
        "error should mention MCR breach"
    );
}

#[test]
fn stability_pool_liquidates_underwater_trove() {
    let mut contract = setup_contract();
    open_trove_for(&mut contract, BORROWER, 10_000, 4_000);
    open_trove_for(&mut contract, LIQUIDATED, 10_000, 4_000);

    contract
        .deposit_to_stability_pool(BORROWER, 4_000)
        .expect("pool deposit should succeed");

    contract
        .submit_price(ORACLE, COLLATERAL, 5, 2, 1)
        .expect("price submission should succeed");

    let processed = contract
        .liquidate(COLLATERAL, &vec![LIQUIDATED])
        .expect("liquidation should succeed");
    assert_eq!(processed, 1);

    assert!(
        contract.get_trove(LIQUIDATED, COLLATERAL).is_none(),
        "trove should be removed after liquidation"
    );

    let pool_balance = contract
        .get_stability_pool_deposit(BORROWER)
        .expect("deposit view should succeed");
    assert_eq!(pool_balance, 0, "depositor balance should be depleted");

    let depositor_reward = contract
        .get_claimable_collateral_reward(BORROWER, COLLATERAL)
        .expect("reward view should succeed");
    assert_eq!(
        depositor_reward, 9_950,
        "stability pool depositor should receive collateral minus penalty"
    );

    let owner_reward = contract
        .get_claimable_collateral_reward(OWNER, COLLATERAL)
        .expect("reward view should succeed");
    assert_eq!(owner_reward, 50, "owner should receive liquidation penalty");

    let transfer = contract
        .claim_collateral_reward(BORROWER, COLLATERAL, None)
        .expect("claim should succeed");
    assert_eq!(
        transfer.amount, 9_950,
        "claim should transfer seized collateral to depositor"
    );
    assert_eq!(transfer.receiver_id, BORROWER);
    assert_eq!(transfer.token_id, COLLATERAL);

    let owner_transfer = contract
        .claim_collateral_reward(OWNER, COLLATERAL, None)
        .expect("claim should succeed");
    assert_eq!(
        owner_transfer.amount, 50,
        "owner should receive penalty collateral"
    );
}

#[test]
fn stability_pool_new_deposit_does_not_get_past_rewards() {
    let mut contract = setup_contract();
    open_trove_for(&mut contract, BORROWER, 10_000, 4_000);
    open_trove_for(&mut contract, LIQUIDATED, 10_000, 4_000);
    open_trove_for(&mut contract, LATE_DEPOSITOR, 10_000, 1_000);

    contract
        .deposit_to_stability_pool(BORROWER, 4_000)
        .expect("pool deposit should succeed");

    contract
        .submit_price(ORACLE, COLLATERAL, 5, 2, 1)
        .expect("price submission should succeed");

    contract
        .liquidate(COLLATERAL, &vec![LIQUIDATED])
        .expect("liquidation should succeed");

    let borrower_pending = contract
        .get_claimable_collateral_reward(BORROWER, COLLATERAL)
        .expect("reward view should succeed");
    assert_eq!(
        borrower_pending, 9_950,
        "existing depositor should own liquidation rewards"
    );

    let late_pending_before = contract
        .get_claimable_collateral_reward(LATE_DEPOSITOR, COLLATERAL)
        .expect("reward view should succeed");
    assert_eq!(
        late_pending_before, 0,
        "non-depositor should have no rewards before joining"
    );

    contract
        .deposit_to_stability_pool(LATE_DEPOSITOR, 10)
        .expect("late pool deposit should succeed");

    let late_pending_after = contract
        .get_claimable_collateral_reward(LATE_DEPOSITOR, COLLATERAL)
        .expect("reward view should succeed");
    assert_eq!(
        late_pending_after, 0,
        "new deposit should not inherit historical rewards"
    );

    let borrower_pending_after = contract
        .get_claimable_collateral_reward(BORROWER, COLLATERAL)
        .expect("reward view should succeed");
    assert_eq!(
        borrower_pending_after, 9_950,
        "existing depositor's rewards must remain intact"
    );
}

#[test]
fn redeem_reduces_trove_and_awards_collateral() {
    let mut contract = setup_contract();
    open_trove_for(&mut contract, BORROWER, 10_000, 4_000);
    open_trove_for(&mut contract, TARGET, 10_000, 4_000);

    let collateral_out = contract
        .redeem(BORROWER, COLLATERAL, TARGET, 1_000, 1)
        .expect("redeem should succeed");
    assert_eq!(collateral_out, 5);

    let trove = contract
        .get_trove(TARGET, COLLATERAL)
        .expect("trove should remain");
    assert_eq!(
        trove.debt_amount, 3_000,
        "trove debt should drop by redeemed amount"
    );
    assert_eq!(
        trove.collateral_amount, 9_995,
        "collateral should be reduced by conversion of redeemed nUSD"
    );

    let claimable = contract
        .get_claimable_collateral_reward(BORROWER, COLLATERAL)
        .expect("reward view should succeed");
    assert_eq!(claimable, 5, "redeemer should accrue equivalent collateral");

    let transfer = contract
        .claim_collateral_reward(BORROWER, COLLATERAL, None)
        .expect("claim should succeed");
    assert_eq!(
        transfer.amount, 5,
        "claiming after redemption should transfer collateral"
    );

    assert_eq!(
        contract.get_total_debt(COLLATERAL),
        7_000,
        "system debt should reflect redemption burn"
    );
}

#[test]
fn stability_pool_withdraw_returns_balance() {
    let mut contract = setup_contract();
    open_trove_for(&mut contract, BORROWER, 10_000, 4_000);
    let mut nusd_balance: u128 = 4_000;

    contract
        .deposit_to_stability_pool(BORROWER, 3_000)
        .expect("pool deposit should succeed");
    nusd_balance -= 3_000;

    let returned = contract
        .withdraw_from_stability_pool(BORROWER, Some(1_000))
        .expect("partial withdraw should succeed");
    nusd_balance += returned;

    let remaining = contract
        .get_stability_pool_deposit(BORROWER)
        .expect("deposit view should succeed");
    assert_eq!(remaining, 2_000, "partial withdraw should leave the rest");
    assert_eq!(
        nusd_balance, 2_000,
        "withdrawn funds should return to borrower balance"
    );

    contract
        .withdraw_from_stability_pool(BORROWER, None)
        .expect("full withdraw should succeed");

    let final_balance = contract
        .get_stability_pool_deposit(BORROWER)
        .expect("deposit view should succeed");
    assert_eq!(
        final_balance, 0,
        "withdrawing without amount should drain deposit"
    );
}

#[test]
fn partial_pool_burn_dilutes_share_value() {
    let mut contract = setup_contract();
    open_trove_for(&mut contract, BORROWER, 10_000, 4_000);
    open_trove_for(&mut contract, TARGET, 10_000, 2_000);

    contract
        .deposit_to_stability_pool(BORROWER, 4_000)
        .expect("pool deposit should succeed");
    let value_before = contract
        .get_stability_pool_deposit(BORROWER)
        .expect("deposit view should succeed");
    assert_eq!(value_before, 4_000);

    // Price 0.02: the 2000-debt trove's ratio falls to 1000 bps, under the
    // 1300 bps minimum; the 4000-debt trove was already unhealthier.
    contract
        .submit_price(ORACLE, COLLATERAL, 2, 2, 1)
        .expect("price submission should succeed");
    contract
        .liquidate(COLLATERAL, &vec![TARGET])
        .expect("liquidation should succeed");

    // The burn removed half the pooled balance without touching shares:
    // the same shares are now worth half as much.
    let value_after = contract
        .get_stability_pool_deposit(BORROWER)
        .expect("deposit view should succeed");
    assert_eq!(value_after, 2_000);
    assert_eq!(contract.get_stability_pool_balance(), 2_000);

    let reward = contract
        .get_claimable_collateral_reward(BORROWER, COLLATERAL)
        .expect("reward view should succeed");
    assert_eq!(reward, 9_950);
}

#[test]
fn liquidation_skips_processed_and_healthy_troves() {
    let mut contract = setup_contract();
    open_trove_for(&mut contract, BORROWER, 10_000, 100);
    open_trove_for(&mut contract, LIQUIDATED, 10_000, 4_000);

    contract
        .deposit_to_stability_pool(BORROWER, 100)
        .expect("pool deposit should succeed");
    contract
        .deposit_to_stability_pool(LIQUIDATED, 4_000)
        .expect("pool deposit should succeed");

    contract
        .submit_price(ORACLE, COLLATERAL, 5, 2, 1)
        .expect("price submission should succeed");

    // The same owner twice in one batch: the second occurrence finds the
    // trove already removed and is skipped, not double-counted; the
    // healthy borrower trove is skipped too.
    let processed = contract
        .liquidate(COLLATERAL, &vec![LIQUIDATED, LIQUIDATED, BORROWER])
        .expect("liquidation should succeed");
    assert_eq!(processed, 1);
    assert!(contract.get_trove(LIQUIDATED, COLLATERAL).is_none());
    assert!(contract.get_trove(BORROWER, COLLATERAL).is_some());
}

#[test]
fn stale_deposit_resets_after_depletion() {
    let mut contract = setup_contract();
    open_trove_for(&mut contract, BORROWER, 10_000, 4_000);
    open_trove_for(&mut contract, LIQUIDATED, 10_000, 4_000);

    contract
        .deposit_to_stability_pool(BORROWER, 4_000)
        .expect("pool deposit should succeed");
    contract
        .submit_price(ORACLE, COLLATERAL, 5, 2, 1)
        .expect("price submission should succeed");
    contract
        .liquidate(COLLATERAL, &vec![LIQUIDATED])
        .expect("liquidation should succeed");

    // The pool was drained: the epoch advanced and the old share basis is
    // gone.  A fresh deposit settles the stale record's rewards, resets
    // it, and starts clean in the new generation.
    assert_eq!(contract.get_stability_pool_balance(), 0);
    contract
        .deposit_to_stability_pool(BORROWER, 1_000)
        .expect("redeposit should succeed");
    assert_eq!(contract.get_stability_pool_deposit(BORROWER), Ok(1_000));
    assert_eq!(
        contract.get_claimable_collateral_reward(BORROWER, COLLATERAL),
        Ok(9_950)
    );
}

#[test]
fn withdraw_after_dilution_returns_diluted_value() {
    let mut contract = setup_contract();
    open_trove_for(&mut contract, BORROWER, 10_000, 4_000);
    open_trove_for(&mut contract, TARGET, 10_000, 1_000);

    contract
        .deposit_to_stability_pool(BORROWER, 4_000)
        .expect("pool deposit should succeed");

    // Price 0.01: the 1000-debt trove's ratio is 1000 bps, unhealthy.
    contract
        .submit_price(ORACLE, COLLATERAL, 1, 2, 1)
        .expect("price submission should succeed");
    contract
        .liquidate(COLLATERAL, &vec![TARGET])
        .expect("liquidation should succeed");

    // 1000 of the 4000 pooled stablecoin was burned; all shares remain,
    // so a full withdrawal returns the diluted value, never more.
    let returned = contract
        .withdraw_from_stability_pool(BORROWER, None)
        .expect("withdraw should succeed");
    assert_eq!(returned, 3_000);
    assert_eq!(contract.get_stability_pool_balance(), 0);
    assert_eq!(contract.get_stability_pool_deposit(BORROWER), Ok(0));
}

#[test]
fn full_withdrawal_removes_empty_trove() {
    let mut contract = setup_contract();
    contract
        .deposit_collateral(BORROWER, COLLATERAL, 10_000, 0)
        .expect("collateral deposit should succeed");

    let transfer = contract
        .withdraw_collateral(BORROWER, COLLATERAL, 10_000, None, 1)
        .expect("withdraw should succeed");
    assert_eq!(transfer.amount, 10_000);

    // A trove whose collateral and debt both reached zero is removed, not
    // stored as an empty record.
    assert!(contract.get_trove(BORROWER, COLLATERAL).is_none());
    assert_eq!(
        contract.close_trove(BORROWER, COLLATERAL),
        Err(cdp_core::errors::CdpError::TroveNotFound)
    );
}

#[test]
fn stale_deposit_earns_nothing_from_later_generations() {
    const SMALL_BORROWER: u64 = 14;
    let mut contract = setup_contract();
    open_trove_for(&mut contract, BORROWER, 10_000, 4_000);
    open_trove_for(&mut contract, LIQUIDATED, 10_000, 4_000);
    open_trove_for(&mut contract, SMALL_BORROWER, 100, 100);

    contract
        .deposit_to_stability_pool(BORROWER, 4_000)
        .expect("pool deposit should succeed");

    contract
        .submit_price(ORACLE, COLLATERAL, 5, 2, 1)
        .expect("price submission should succeed");
    contract
        .liquidate(COLLATERAL, &vec![LIQUIDATED])
        .expect("liquidation should succeed");

    // The pool was drained: the first generation ended and its settlement
    // value is frozen.
    assert_eq!(contract.get_stability_pool_balance(), 0);
    assert_eq!(
        contract.get_claimable_collateral_reward(BORROWER, COLLATERAL),
        Ok(9_950)
    );

    // A new generation forms and absorbs another liquidation: 100 units of
    // collateral are distributed over its 100 shares.
    contract
        .deposit_to_stability_pool(LATE_DEPOSITOR, 100)
        .expect("new-generation deposit should succeed");
    contract
        .liquidate(COLLATERAL, &vec![SMALL_BORROWER])
        .expect("second liquidation should succeed");

    // The stale first-generation deposit is settled only up to its own
    // generation's depletion point: the later distribution belongs wholly
    // to the new generation's depositor.
    assert_eq!(
        contract.get_claimable_collateral_reward(BORROWER, COLLATERAL),
        Ok(9_950)
    );
    assert_eq!(
        contract.get_claimable_collateral_reward(LATE_DEPOSITOR, COLLATERAL),
        Ok(100)
    );

    let first = contract
        .claim_collateral_reward(BORROWER, COLLATERAL, None)
        .expect("first depositor's claim should succeed");
    assert_eq!(first.amount, 9_950);
    let second = contract
        .claim_collateral_reward(LATE_DEPOSITOR, COLLATERAL, None)
        .expect("second depositor's claim should succeed");
    assert_eq!(second.amount, 100);
    let owner = contract
        .claim_collateral_reward(OWNER, COLLATERAL, None)
        .expect("owner's claim should succeed");
    assert_eq!(owner.amount, 50);
}

#[test]
fn close_trove_returns_collateral() {
    let mut contract = setup_contract();
    open_trove_for(&mut contract, BORROWER, 10_000, 4_000);

    contract
        .repay(BORROWER, COLLATERAL, 4_000, 1)
        .expect("repay should succeed");
    let transfer = contract
        .close_trove(BORROWER, COLLATERAL)
        .expect("close should succeed");
    assert_eq!(transfer.amount, 10_000);
    assert_eq!(transfer.receiver_id, BORROWER);
    assert!(contract.get_trove(BORROWER, COLLATERAL).is_none());
    assert_eq!(contract.get_total_debt(COLLATERAL), 0);
}
