use radix_engine::decimal::{Decimal, LiquidFungibleResource, RoyaltyAmount};
use radix_engine::fee_reserve::{AbortReason, FeeReserveError, RoyaltyRecipient, SystemLoanFeeReserve};
use radix_engine::track::StoreCommit;
use radix_engine::types::{
    package_package, ComponentAddress, EntityType, NodeId, PartitionNumber, SubstateId,
    SubstateKey,
};

fn test_component() -> ComponentAddress {
    ComponentAddress::new(EntityType::GlobalGenericComponent, 5)
}

fn test_vault_id() -> NodeId {
    NodeId::new(EntityType::InternalFungibleVault, 0)
}

fn test_vault_id_2() -> NodeId {
    NodeId::new(EntityType::InternalFungibleVault, 1)
}

fn xrd(amount: u64) -> LiquidFungibleResource {
    LiquidFungibleResource::new(Decimal::from_units(amount))
}

fn dec(units: u64) -> Decimal {
    Decimal::from_units(units)
}

fn dec_attos(attos: u128) -> Decimal {
    Decimal::from_attos(attos)
}

#[test]
fn test_consume_and_repay() {
    let mut fee_reserve = SystemLoanFeeReserve::new(dec(1), dec(1), dec(0), 2, 100, 5, false);
    fee_reserve.consume_execution(2).unwrap();
    fee_reserve.lock_fee(test_vault_id(), xrd(3), false).unwrap();
    fee_reserve.repay_all().unwrap();
    let summary = fee_reserve.finalize();
    assert_eq!(summary.loan_fully_repaid(), true);
    assert_eq!(summary.total_execution_cost_units_consumed, 2);
    assert_eq!(summary.total_execution_cost_in_xrd, dec(2));
    assert_eq!(summary.total_tipping_cost_in_xrd, dec_attos(40_000_000_000_000_000));
    assert_eq!(summary.total_royalty_cost_in_xrd, dec(0));
    assert_eq!(summary.total_bad_debt_in_xrd, dec(0));
}

#[test]
fn test_out_of_cost_unit() {
    let mut fee_reserve = SystemLoanFeeReserve::new(dec(1), dec(1), dec(0), 2, 100, 5, false);
    assert_eq!(
        fee_reserve.consume_execution(6),
        Err(FeeReserveError::InsufficientBalance {
            required: dec_attos(6_120_000_000_000_000_000),
            remaining: dec_attos(5_100_000_000_000_000_000),
        }),
    );
    fee_reserve.repay_all().unwrap();
    let summary = fee_reserve.finalize();
    assert_eq!(summary.loan_fully_repaid(), true);
    assert_eq!(summary.total_execution_cost_units_consumed, 0);
    assert_eq!(summary.total_execution_cost_in_xrd, dec(0));
    assert_eq!(summary.total_royalty_cost_in_xrd, dec(0));
    assert_eq!(summary.total_bad_debt_in_xrd, dec(0));
}

#[test]
fn test_lock_fee() {
    let mut fee_reserve = SystemLoanFeeReserve::new(dec(1), dec(1), dec(0), 2, 100, 500, false);
    fee_reserve.lock_fee(test_vault_id(), xrd(100), false).unwrap();
    fee_reserve.repay_all().unwrap();
    let summary = fee_reserve.finalize();
    assert_eq!(summary.loan_fully_repaid(), true);
    assert_eq!(summary.total_execution_cost_units_consumed, 0);
    assert_eq!(summary.total_execution_cost_in_xrd, dec(0));
    assert_eq!(summary.total_royalty_cost_in_xrd, dec(0));
    assert_eq!(summary.total_bad_debt_in_xrd, dec(0));
}

#[test]
fn test_xrd_cost_unit_conversion() {
    let mut fee_reserve = SystemLoanFeeReserve::new(dec(5), dec(1), dec(0), 0, 100, 500, false);
    fee_reserve.lock_fee(test_vault_id(), xrd(100), false).unwrap();
    fee_reserve.repay_all().unwrap();
    let summary = fee_reserve.finalize();
    assert_eq!(summary.loan_fully_repaid(), true);
    assert_eq!(summary.total_execution_cost_units_consumed, 0);
    assert_eq!(summary.total_execution_cost_in_xrd, dec(0));
    assert_eq!(summary.total_royalty_cost_in_xrd, dec(0));
    assert_eq!(summary.total_bad_debt_in_xrd, dec(0));
    assert_eq!(summary.locked_fees, vec![(test_vault_id(), xrd(100), false)],);
}

#[test]
fn test_bad_debt() {
    let mut fee_reserve = SystemLoanFeeReserve::new(dec(5), dec(1), dec(0), 1, 100, 50, false);
    fee_reserve.consume_execution(2).unwrap();
    assert_eq!(fee_reserve.repay_all(), Err(FeeReserveError::LoanRepaymentFailed));
    let summary = fee_reserve.finalize();
    assert_eq!(summary.loan_fully_repaid(), false);
    assert_eq!(summary.total_execution_cost_units_consumed, 2);
    assert_eq!(summary.total_execution_cost_in_xrd, dec(10));
    assert_eq!(summary.total_tipping_cost_in_xrd, dec_attos(100_000_000_000_000_000));
    assert_eq!(summary.total_royalty_cost_in_xrd, dec(0));
    assert_eq!(summary.total_bad_debt_in_xrd, dec_attos(10_100_000_000_000_000_000));
    assert_eq!(summary.locked_fees, vec![],);
}

#[test]
fn test_royalty_execution_mix() {
    let mut fee_reserve = SystemLoanFeeReserve::new(dec(5), dec(2), dec(0), 1, 100, 50, false);
    fee_reserve.consume_execution(2).unwrap();
    fee_reserve
        .consume_royalty(
            RoyaltyAmount::Xrd(dec(2)),
            RoyaltyRecipient::Package(package_package(), test_vault_id()),
        )
        .unwrap();
    fee_reserve
        .consume_royalty(
            RoyaltyAmount::Usd(dec(7)),
            RoyaltyRecipient::Package(package_package(), test_vault_id()),
        )
        .unwrap();
    fee_reserve.lock_fee(test_vault_id(), xrd(100), false).unwrap();
    fee_reserve.repay_all().unwrap();
    let summary = fee_reserve.finalize();
    assert_eq!(summary.loan_fully_repaid(), true);
    assert_eq!(summary.total_execution_cost_in_xrd, dec(10));
    assert_eq!(summary.total_tipping_cost_in_xrd, dec_attos(100_000_000_000_000_000));
    assert_eq!(summary.total_royalty_cost_in_xrd, dec(16));
    assert_eq!(summary.total_bad_debt_in_xrd, dec(0));
    assert_eq!(summary.locked_fees, vec![(test_vault_id(), xrd(100), false)]);
    assert_eq!(summary.total_execution_cost_units_consumed, 2);
    assert_eq!(
        summary.royalty_cost_breakdown,
        vec![(RoyaltyRecipient::Package(package_package(), test_vault_id()), dec(16))]
    );
}

#[test]
fn test_royalty_insufficient_balance() {
    let mut fee_reserve = SystemLoanFeeReserve::new(dec(1), dec(1), dec(0), 0, 1000, 50, false);
    fee_reserve.lock_fee(test_vault_id(), xrd(100), false).unwrap();
    fee_reserve
        .consume_royalty(
            RoyaltyAmount::Xrd(dec(90)),
            RoyaltyRecipient::Package(package_package(), test_vault_id()),
        )
        .unwrap();
    assert_eq!(
        fee_reserve.consume_royalty(
            RoyaltyAmount::Xrd(dec(80)),
            RoyaltyRecipient::Component(test_component(), test_vault_id_2()),
        ),
        Err(FeeReserveError::InsufficientBalance {
            required: dec(80),
            remaining: dec(60),
        }),
    );
}

#[test]
fn fee_distribution_balances_exactly() {
    let mut fee_reserve = SystemLoanFeeReserve::new(dec(2), dec(1), dec(0), 10, 100, 3, false);
    fee_reserve.lock_fee(test_vault_id(), xrd(50), false).unwrap();
    fee_reserve.consume_execution(3).unwrap();
    fee_reserve.repay_all().unwrap();
    let summary = fee_reserve.finalize();
    // price 2, tip 10%: execution 6, tipping 0.6, storage 0.
    assert_eq!(summary.total_execution_cost_in_xrd, dec(6));
    assert_eq!(summary.total_tipping_cost_in_xrd, dec_attos(600_000_000_000_000_000));
    let total = summary.total_execution_cost_in_xrd.attos
        + summary.total_tipping_cost_in_xrd.attos
        + summary.total_storage_cost_in_xrd.attos;
    let distributed = summary.to_proposer_amount().attos
        + summary.to_validator_set_amount().attos
        + summary.to_burn_amount().attos;
    assert_eq!(total, distributed);
}

#[test]
fn consume_deferred_settles_at_first_repayment() {
    let mut fee_reserve = SystemLoanFeeReserve::new(dec(1), dec(1), dec(0), 0, 100, 5, false);
    fee_reserve.consume_deferred(3).unwrap();
    // The deferred units are not yet committed.
    let before = fee_reserve.fee_balance();
    assert_eq!(before, dec(5));
    fee_reserve.lock_fee(test_vault_id(), xrd(10), false).unwrap();
    fee_reserve.repay_all().unwrap();
    let summary = fee_reserve.finalize();
    assert_eq!(summary.total_execution_cost_units_consumed, 3);
    assert_eq!(summary.total_bad_debt_in_xrd, dec(0));
}

#[test]
fn consume_state_expansion_charges_only_growth() {
    let sid = SubstateId::new(
        NodeId::new(EntityType::GlobalGenericComponent, 1),
        PartitionNumber(0u8),
        SubstateKey::Field(0u8),
    );
    let mut fee_reserve =
        SystemLoanFeeReserve::new(dec(0), dec(1), dec(1), 0, 100, 0, false).with_free_credit(dec(100));
    fee_reserve
        .consume_state_expansion(&StoreCommit::Update { substate_id: sid, size: 7, old_size: 4 })
        .unwrap();
    assert_eq!(fee_reserve.fee_balance(), dec(97));
    fee_reserve
        .consume_state_expansion(&StoreCommit::Update { substate_id: sid, size: 2, old_size: 4 })
        .unwrap();
    assert_eq!(fee_reserve.fee_balance(), dec(97));
    fee_reserve
        .consume_state_expansion(&StoreCommit::Delete { substate_id: sid })
        .unwrap();
    assert_eq!(fee_reserve.fee_balance(), dec(97));
    fee_reserve
        .consume_state_expansion(&StoreCommit::Insert { substate_id: sid, size: 3 })
        .unwrap();
    assert_eq!(fee_reserve.fee_balance(), dec(94));
}

#[test]
fn overflow_is_a_hard_error() {
    let mut fee_reserve = SystemLoanFeeReserve::new(dec(1), dec(1), dec(0), 0, 4_000_000_000, 0, false)
        .with_free_credit(Decimal::from_attos(u128::MAX - 1));
    assert_eq!(
        fee_reserve.lock_fee(test_vault_id(), xrd(10), false),
        Err(FeeReserveError::Overflow)
    );
}

#[test]
fn abort_when_loan_repaid_aborts_on_repayment() {
    let mut fee_reserve = SystemLoanFeeReserve::new(dec(1), dec(1), dec(0), 0, 100, 2, true);
    // Committing two units reaches the loan threshold and forces the
    // repayment, which the configured abort interrupts.
    fee_reserve.lock_fee(test_vault_id(), xrd(10), false).unwrap();
    assert_eq!(
        fee_reserve.consume_execution(2),
        Err(FeeReserveError::Abort(
            AbortReason::ConfiguredAbortTriggeredOnFeeLoanRepayment
        ))
    );
}

#[test]
fn limit_exceeded_reports_the_attempt() {
    let mut fee_reserve = SystemLoanFeeReserve::new(dec(1), dec(1), dec(0), 0, 10, 0, false)
        .with_free_credit(dec(100));
    fee_reserve.consume_execution(8).unwrap();
    assert_eq!(
        fee_reserve.consume_execution(5),
        Err(FeeReserveError::LimitExceeded { limit: 10, committed: 8, new: 5 })
    );
}
