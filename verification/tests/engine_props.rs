use cdp_core::contract::Contract;
use cdp_core::errors::CdpError;
use cdp_core::math::{collateral_ratio, decimals_factor};
use cdp_core::types::{CollateralConfig, StabilityDeposit, StabilityPoolMode};

const OWNER: u64 = 1;
const ROUTER: u64 = 2;
const ORACLE: u64 = 3;
const BORROWER: u64 = 10;
const OTHER: u64 = 11;
const COLLATERAL: u64 = 100;
const SECOND_ASSET: u64 = 101;

fn config_with(min_bps: u16, recovery_bps: u16, ceiling: u128) -> CollateralConfig {
    CollateralConfig {
        oracle_price_id: 7,
        min_collateral_ratio_bps: min_bps,
        recovery_collateral_ratio_bps: recovery_bps,
        debt_ceiling: ceiling,
        liquidation_penalty_bps: 50,
        stability_pool_mode: StabilityPoolMode::Dedicated,
    }
}

fn setup_contract() -> Contract {
    let mut contract = Contract::new(OWNER, ROUTER, ORACLE);
    contract
        .register_collateral(OWNER, COLLATERAL, config_with(1300, 1500, 1_000_000_000_000))
        .expect("register should succeed");
    contract
        .submit_price(ORACLE, COLLATERAL, 20000, 2, 0)
        .expect("price submission should succeed");
    contract
}

#[test]
fn ratio_formula_exact_values() {
    // Collateral price 200.00: ratio = (10000 * 20000 / 100) * 10000 / 4000.
    assert_eq!(collateral_ratio(10_000, 4_000, 20_000, 2), Ok(5_000_000));
    // Price 0.05: value 500, ratio 1250 bps, under a 1300 bps minimum.
    assert_eq!(collateral_ratio(10_000, 4_000, 5, 2), Ok(1_250));
    // A debt-free trove is always safe.
    assert_eq!(collateral_ratio(10_000, 0, 5, 2), Ok(u128::MAX));
    // The value multiplication is checked.
    assert_eq!(
        collateral_ratio(u128::MAX, 1, 20_000, 2),
        Err(CdpError::Overflow)
    );
}

#[test]
fn decimals_factor_exact_values() {
    assert_eq!(decimals_factor(0), 1);
    assert_eq!(decimals_factor(2), 100);
    assert_eq!(decimals_factor(18), 1_000_000_000_000_000_000);
}

#[test]
fn deposit_amount_formula() {
    let deposit = StabilityDeposit::new(0);
    assert_eq!(deposit.shares, 0);
    assert_eq!(deposit.amount(5_000, 100), Ok(0));
    let held = StabilityDeposit { shares: 40, epoch: 0 };
    assert_eq!(held.amount(5_000, 100), Ok(2_000));
    assert_eq!(held.amount(0, 100), Ok(0));
}

#[test]
fn registration_validation() {
    let mut contract = Contract::new(OWNER, ROUTER, ORACLE);
    assert_eq!(
        contract.register_collateral(OTHER, COLLATERAL, config_with(1300, 1500, 10)),
        Err(CdpError::Unauthorized)
    );
    assert_eq!(
        contract.register_collateral(OWNER, COLLATERAL, config_with(1000, 1500, 10)),
        Err(CdpError::McrTooLow)
    );
    assert_eq!(
        contract.register_collateral(OWNER, COLLATERAL, config_with(1300, 1200, 10)),
        Err(CdpError::RecoveryBelowMcr)
    );
    assert!(contract
        .register_collateral(OWNER, COLLATERAL, config_with(1300, 1500, 10))
        .is_ok());
    let stored = contract.get_collateral_config(COLLATERAL).expect("stored");
    assert_eq!(stored.debt_ceiling, 10);
    assert_eq!(contract.list_collateral_tokens(), vec![COLLATERAL]);
}

#[test]
fn price_submission_validation() {
    let mut contract = Contract::new(OWNER, ROUTER, ORACLE);
    assert_eq!(
        contract.submit_price(OWNER, COLLATERAL, 20000, 2, 0),
        Err(CdpError::Unauthorized)
    );
    assert_eq!(
        contract.submit_price(ORACLE, COLLATERAL, 20000, 19, 0),
        Err(CdpError::InvalidDecimals)
    );
    assert_eq!(
        contract.submit_price(ORACLE, COLLATERAL, 0, 2, 0),
        Err(CdpError::InvalidPrice)
    );
    assert!(contract.submit_price(ORACLE, COLLATERAL, 20000, 2, 5).is_ok());
    let feed = contract.get_price(COLLATERAL).expect("feed stored");
    assert_eq!(feed.price, 20000);
    assert_eq!(feed.decimals, 2);
    assert_eq!(feed.last_update_timestamp, 5);
}

#[test]
fn trove_operation_errors() {
    let mut contract = setup_contract();

    assert_eq!(
        contract.deposit_collateral(BORROWER, SECOND_ASSET, 1_000, 0),
        Err(CdpError::NotSupported)
    );
    assert_eq!(
        contract.deposit_collateral(BORROWER, COLLATERAL, 0, 0),
        Err(CdpError::InvalidAmount)
    );
    assert_eq!(
        contract.borrow(BORROWER, COLLATERAL, 4_000, 0),
        Err(CdpError::TroveNotFound)
    );

    contract
        .deposit_collateral(BORROWER, COLLATERAL, 10_000, 0)
        .expect("collateral deposit should succeed");
    assert_eq!(
        contract.borrow(BORROWER, COLLATERAL, 0, 0),
        Err(CdpError::InvalidAmount)
    );
    // 10000 collateral at 200.00 is worth 2_000_000: a 16_000_000 debt
    // puts the ratio at 1250 bps, under the 1300 bps minimum.
    assert_eq!(
        contract.borrow(BORROWER, COLLATERAL, 16_000_000, 0),
        Err(CdpError::BelowMcr)
    );

    contract
        .borrow(BORROWER, COLLATERAL, 4_000, 0)
        .expect("borrow should succeed");
    assert_eq!(
        contract.repay(BORROWER, COLLATERAL, 5_000, 0),
        Err(CdpError::RepayExceedsDebt)
    );
    assert_eq!(
        contract.withdraw_collateral(BORROWER, COLLATERAL, 20_000, None, 0),
        Err(CdpError::NotEnoughCollateral)
    );
    assert_eq!(
        contract.close_trove(BORROWER, COLLATERAL),
        Err(CdpError::OutstandingDebt)
    );
    assert_eq!(
        contract.close_trove(OTHER, COLLATERAL),
        Err(CdpError::TroveNotFound)
    );
}

#[test]
fn debt_ceiling_is_enforced() {
    let mut contract = Contract::new(OWNER, ROUTER, ORACLE);
    contract
        .register_collateral(OWNER, COLLATERAL, config_with(1300, 1500, 5_000))
        .expect("register should succeed");
    contract
        .submit_price(ORACLE, COLLATERAL, 20000, 2, 0)
        .expect("price submission should succeed");
    contract
        .deposit_collateral(BORROWER, COLLATERAL, 100_000, 0)
        .expect("collateral deposit should succeed");
    assert_eq!(
        contract.borrow(BORROWER, COLLATERAL, 6_000, 0),
        Err(CdpError::CeilingExceeded)
    );
    contract
        .borrow(BORROWER, COLLATERAL, 5_000, 0)
        .expect("borrow at the ceiling should succeed");
    assert_eq!(contract.get_total_debt(COLLATERAL), 5_000);

    contract
        .deposit_collateral(OTHER, COLLATERAL, 100_000, 0)
        .expect("collateral deposit should succeed");
    assert_eq!(
        contract.borrow(OTHER, COLLATERAL, 1, 0),
        Err(CdpError::CeilingExceeded)
    );

    // Replacing the configuration with a ceiling below the outstanding
    // debt is rejected: the recorded totals stay within the ceiling.
    assert_eq!(
        contract.register_collateral(OWNER, COLLATERAL, config_with(1300, 1500, 4_000)),
        Err(CdpError::CeilingExceeded)
    );
}

#[test]
fn borrow_without_price_is_rejected() {
    let mut contract = Contract::new(OWNER, ROUTER, ORACLE);
    contract
        .register_collateral(OWNER, COLLATERAL, config_with(1300, 1500, 1_000_000))
        .expect("register should succeed");
    contract
        .deposit_collateral(BORROWER, COLLATERAL, 10_000, 0)
        .expect("collateral deposit should succeed");
    assert_eq!(
        contract.borrow(BORROWER, COLLATERAL, 100, 0),
        Err(CdpError::PriceNotAvailable)
    );
}

#[test]
fn ratio_overflow_is_fatal_for_the_call() {
    let mut contract = setup_contract();
    contract
        .deposit_collateral(BORROWER, COLLATERAL, u128::MAX, 0)
        .expect("collateral deposit should succeed");
    assert_eq!(
        contract.borrow(BORROWER, COLLATERAL, 1, 0),
        Err(CdpError::Overflow)
    );
    // The failed call left no partial state behind.
    assert_eq!(contract.get_total_debt(COLLATERAL), 0);
    let trove = contract.get_trove(BORROWER, COLLATERAL).expect("trove");
    assert_eq!(trove.debt_amount, 0);
}

#[test]
fn pool_errors() {
    let mut contract = setup_contract();
    contract
        .deposit_collateral(BORROWER, COLLATERAL, 10_000, 0)
        .expect("collateral deposit should succeed");
    contract
        .borrow(BORROWER, COLLATERAL, 4_000, 0)
        .expect("borrow should succeed");

    assert_eq!(
        contract.deposit_to_stability_pool(BORROWER, 0),
        Err(CdpError::InvalidAmount)
    );
    assert_eq!(
        contract.withdraw_from_stability_pool(BORROWER, Some(100)),
        Err(CdpError::NothingDeposited)
    );

    contract
        .deposit_to_stability_pool(BORROWER, 3_000)
        .expect("pool deposit should succeed");
    assert_eq!(
        contract.withdraw_from_stability_pool(BORROWER, Some(0)),
        Err(CdpError::InvalidAmount)
    );
    assert_eq!(
        contract.withdraw_from_stability_pool(BORROWER, Some(3_001)),
        Err(CdpError::InsufficientBalance)
    );
}

#[test]
fn claim_errors() {
    let mut contract = setup_contract();
    assert_eq!(
        contract.claim_collateral_reward(BORROWER, COLLATERAL, None),
        Err(CdpError::NothingToClaim)
    );

    contract
        .deposit_collateral(BORROWER, COLLATERAL, 10_000, 0)
        .expect("collateral deposit should succeed");
    contract
        .borrow(BORROWER, COLLATERAL, 4_000, 0)
        .expect("borrow should succeed");
    contract
        .redeem(BORROWER, COLLATERAL, BORROWER, 1_000, 0)
        .expect("redeem should succeed");
    assert_eq!(
        contract.claim_collateral_reward(BORROWER, COLLATERAL, Some(6)),
        Err(CdpError::ExceedsClaimable)
    );
    assert_eq!(
        contract.claim_collateral_reward(BORROWER, COLLATERAL, Some(0)),
        Err(CdpError::InvalidAmount)
    );
    let transfer = contract
        .claim_collateral_reward(BORROWER, COLLATERAL, Some(5))
        .expect("claim should succeed");
    assert_eq!(transfer.amount, 5);
    assert_eq!(
        contract.claim_collateral_reward(BORROWER, COLLATERAL, None),
        Err(CdpError::NothingToClaim)
    );
}

#[test]
fn redeem_errors() {
    let mut contract = setup_contract();
    contract
        .deposit_collateral(BORROWER, COLLATERAL, 10_000, 0)
        .expect("collateral deposit should succeed");
    contract
        .borrow(BORROWER, COLLATERAL, 4_000, 0)
        .expect("borrow should succeed");

    assert_eq!(
        contract.redeem(OTHER, COLLATERAL, BORROWER, 0, 0),
        Err(CdpError::InvalidAmount)
    );
    assert_eq!(
        contract.redeem(OTHER, COLLATERAL, OTHER, 100, 0),
        Err(CdpError::TroveNotFound)
    );
    assert_eq!(
        contract.redeem(OTHER, COLLATERAL, BORROWER, 5_000, 0),
        Err(CdpError::RedeemExceedsDebt)
    );
    // 1 stable at 200.00 converts to 100 / 20000 = 0 collateral.
    assert_eq!(
        contract.redeem(OTHER, COLLATERAL, BORROWER, 1, 0),
        Err(CdpError::RedeemTooSmall)
    );

    // At 0.05 each stable claims 2000 collateral units: the trove cannot
    // cover a 501-stable redemption.
    contract
        .submit_price(ORACLE, COLLATERAL, 5, 2, 1)
        .expect("price submission should succeed");
    assert_eq!(
        contract.redeem(OTHER, COLLATERAL, BORROWER, 501, 1),
        Err(CdpError::RedeemExceedsCollateral)
    );
}

#[test]
fn liquidation_errors() {
    let mut contract = setup_contract();
    contract
        .deposit_collateral(BORROWER, COLLATERAL, 10_000, 0)
        .expect("collateral deposit should succeed");
    contract
        .borrow(BORROWER, COLLATERAL, 4_000, 0)
        .expect("borrow should succeed");

    assert_eq!(
        contract.liquidate(COLLATERAL, &vec![]),
        Err(CdpError::OwnersRequired)
    );
    assert_eq!(
        contract.liquidate(SECOND_ASSET, &vec![BORROWER]),
        Err(CdpError::PriceNotAvailable)
    );

    contract
        .submit_price(ORACLE, COLLATERAL, 5, 2, 1)
        .expect("price submission should succeed");
    // The pool holds nothing: the unhealthy trove cannot be absorbed, and
    // the whole batch is rejected with no state change.
    assert_eq!(
        contract.liquidate(COLLATERAL, &vec![BORROWER]),
        Err(CdpError::InsufficientPoolFunds)
    );
    assert!(contract.get_trove(BORROWER, COLLATERAL).is_some());
    assert_eq!(contract.get_total_debt(COLLATERAL), 4_000);
}

#[test]
fn pool_round_trip_preserves_value() {
    let mut contract = setup_contract();
    contract
        .deposit_collateral(BORROWER, COLLATERAL, 10_000, 0)
        .expect("collateral deposit should succeed");
    contract
        .borrow(BORROWER, COLLATERAL, 4_000, 0)
        .expect("borrow should succeed");

    // Bootstrap pricing: 1 share per unit; depositing then withdrawing
    // everything returns exactly the original amount.
    contract
        .deposit_to_stability_pool(BORROWER, 1_000)
        .expect("pool deposit should succeed");
    assert_eq!(
        contract.get_stability_pool_deposit(BORROWER),
        Ok(1_000)
    );
    let returned = contract
        .withdraw_from_stability_pool(BORROWER, None)
        .expect("withdraw should succeed");
    assert_eq!(returned, 1_000);
    assert_eq!(contract.get_stability_pool_balance(), 0);

    // Several deposit/withdraw cycles at a stable price create no value.
    let mut held: u128 = 4_000;
    for _ in 0..3 {
        contract
            .deposit_to_stability_pool(BORROWER, held)
            .expect("pool deposit should succeed");
        held = contract
            .withdraw_from_stability_pool(BORROWER, None)
            .expect("withdraw should succeed");
    }
    assert!(held <= 4_000);
    assert_eq!(held, 4_000);
}

#[test]
fn pool_depleted_share_reports_error() {
    let mut contract = setup_contract();
    contract
        .deposit_collateral(BORROWER, COLLATERAL, 10_000, 0)
        .expect("collateral deposit should succeed");
    contract
        .borrow(BORROWER, COLLATERAL, 4_000, 0)
        .expect("borrow should succeed");
    contract
        .deposit_collateral(OTHER, COLLATERAL, 1_000_000, 0)
        .expect("collateral deposit should succeed");
    contract
        .borrow(OTHER, COLLATERAL, 3_999, 0)
        .expect("borrow should succeed");

    contract
        .deposit_to_stability_pool(BORROWER, 4_000)
        .expect("pool deposit should succeed");
    contract
        .deposit_to_stability_pool(OTHER, 1)
        .expect("pool deposit should succeed");

    // Price 0.05 leaves the first trove unhealthy; its 4000 debt burns
    // almost the whole pool, leaving the one-share deposit worth nothing.
    contract
        .submit_price(ORACLE, COLLATERAL, 5, 2, 1)
        .expect("price submission should succeed");
    contract
        .liquidate(COLLATERAL, &vec![BORROWER])
        .expect("liquidation should succeed");

    assert_eq!(contract.get_stability_pool_balance(), 1);
    assert_eq!(contract.get_stability_pool_deposit(OTHER), Ok(0));
    assert_eq!(
        contract.withdraw_from_stability_pool(OTHER, None),
        Err(CdpError::PoolDepleted)
    );
}

#[test]
fn unauthorized_callers_are_rejected() {
    let mut contract = setup_contract();
    assert_eq!(contract.owner_id(), OWNER);
    assert_eq!(contract.intent_router_id(), ROUTER);
    assert_eq!(contract.pyth_oracle_id(), ORACLE);
    assert_eq!(
        contract.submit_price(BORROWER, COLLATERAL, 100, 2, 0),
        Err(CdpError::Unauthorized)
    );
    assert_eq!(
        contract.register_collateral(BORROWER, SECOND_ASSET, config_with(1300, 1500, 10)),
        Err(CdpError::Unauthorized)
    );
}
