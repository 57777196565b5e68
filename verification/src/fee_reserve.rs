//! The system-loan fee reserve.
//!
//! A reserve is created once per transaction.  Execution is allowed to
//! proceed interest-free up to a loan ceiling; once the committed
//! execution units reach the loan threshold the outstanding loan is
//! repaid from the balance, and a transaction can only finish cleanly
//! once `xrd_owed` has reached zero.  All hot-path arithmetic is unsigned
//! 128-bit; overflow is a hard `Overflow` error, never a wrap.

use vstd::prelude::*;
use crate::decimal::{Decimal, LiquidFungibleResource, RoyaltyAmount, ATTOS_PER_UNIT};
use crate::types::{ComponentAddress, NodeId, PackageAddress};
use crate::track::StoreCommit;

verus! {

/// Upper bound (exclusive) on the configured prices, in attos.  Wide
/// enough for any realistic price while keeping every intermediate
/// product inside `u128`.
pub const PRICE_LIMIT: u128 = 1208925819614629174706176;

/// Upper bound (exclusive) on the cached effective price that follows
/// from `PRICE_LIMIT` and the widest tip percentage.
pub const EFFECTIVE_PRICE_LIMIT: u128 = 2475880078570760549798248448;

/// Reason a transaction run was aborted on purpose.
#[derive(Debug, Clone, Copy, PartialEq, Eq, Structural)]
pub enum AbortReason {
    ConfiguredAbortTriggeredOnFeeLoanRepayment,
}

/// Failures of fee metering.
#[derive(Debug, Clone, Copy, PartialEq, Eq, Structural)]
pub enum FeeReserveError {
    InsufficientBalance { required: Decimal, remaining: Decimal },
    Overflow,
    LimitExceeded { limit: u32, committed: u32, new: u32 },
    LoanRepaymentFailed,
    Abort(AbortReason),
}

/// Whom a royalty charge is owed to.
#[derive(Debug, Clone, Copy, PartialEq, Eq, Structural, Hash)]
pub enum RoyaltyRecipient {
    Package(PackageAddress, NodeId),
    Component(ComponentAddress, NodeId),
}

/// The immutable record produced when a reserve is finalized.
#[derive(Debug, Clone, PartialEq, Eq)]
pub struct FeeSummary {
    pub execution_cost_unit_limit: u32,
    pub execution_cost_unit_price: Decimal,
    pub usd_price_in_xrd: Decimal,
    pub storage_price_in_xrd: Decimal,
    pub tip_percentage: u16,
    pub total_execution_cost_in_xrd: Decimal,
    pub total_execution_cost_units_consumed: u32,
    pub total_tipping_cost_in_xrd: Decimal,
    pub total_royalty_cost_in_xrd: Decimal,
    pub total_storage_cost_in_xrd: Decimal,
    pub total_bad_debt_in_xrd: Decimal,
    pub locked_fees: Vec<(NodeId, LiquidFungibleResource, bool)>,
    pub royalty_cost_breakdown: Vec<(RoyaltyRecipient, Decimal)>,
}

impl FeeSummary {
    /// Whether the system loan ended fully repaid.
    pub fn loan_fully_repaid(&self) -> (r: bool)
        ensures
            r == (self.total_bad_debt_in_xrd.attos == 0),
    {
        self.total_bad_debt_in_xrd.attos == 0
    }

    /// Share of the collected fees handed to the proposer: half of the
    /// tips, rounded down.
    pub open spec fn spec_to_proposer(self) -> int {
        (self.total_tipping_cost_in_xrd.attos as int) / 2
    }

    pub fn to_proposer_amount(&self) -> (r: Decimal)
        ensures
            r.attos == self.spec_to_proposer(),
    {
        Decimal { attos: self.total_tipping_cost_in_xrd.attos / 2 }
    }

    /// Share handed to the validator set: the remaining tips.
    pub open spec fn spec_to_validator_set(self) -> int {
        self.total_tipping_cost_in_xrd.attos - (self.total_tipping_cost_in_xrd.attos as int) / 2
    }

    pub fn to_validator_set_amount(&self) -> (r: Decimal)
        ensures
            r.attos == self.spec_to_validator_set(),
    {
        Decimal {
            attos: self.total_tipping_cost_in_xrd.attos - self.total_tipping_cost_in_xrd.attos / 2,
        }
    }

    /// Share burned: the execution and storage costs.  Requires the sum
    /// to fit, which holds of every summary a reserve finalizes.
    pub open spec fn spec_to_burn(self) -> int {
        self.total_execution_cost_in_xrd.attos + self.total_storage_cost_in_xrd.attos
    }

    pub fn to_burn_amount(&self) -> (r: Decimal)
        requires
            self.total_execution_cost_in_xrd.attos + self.total_storage_cost_in_xrd.attos
                <= u128::MAX,
        ensures
            r.attos == self.spec_to_burn(),
    {
        Decimal {
            attos: self.total_execution_cost_in_xrd.attos + self.total_storage_cost_in_xrd.attos,
        }
    }
}

/// The fee distribution never loses or invents value: execution, tips
/// and storage costs are exactly the sum of the proposer, validator-set
/// and burn shares.
pub proof fn lemma_fee_distribution_balanced(s: FeeSummary)
    ensures
        s.total_execution_cost_in_xrd.attos + s.total_tipping_cost_in_xrd.attos
            + s.total_storage_cost_in_xrd.attos == s.spec_to_proposer() + s.spec_to_validator_set()
            + s.spec_to_burn(),
{
}

/// First index at which `key` occurs in the breakdown, if any.
pub open spec fn bd_find(s: Seq<(RoyaltyRecipient, u128)>, key: RoyaltyRecipient) -> Option<int>
    decreases s.len(),
{
    if s.len() == 0 {
        None
    } else if s[0].0 == key {
        Some(0)
    } else {
        match bd_find(s.drop_first(), key) {
            Some(i) => Some(i + 1),
            None => None,
        }
    }
}

/// The reserve proper.  Fields are the model the contracts speak of.
#[derive(Debug, Clone)]
pub struct SystemLoanFeeReserve {
    /// The price of one execution cost unit, in attos.
    pub cost_unit_price: u128,
    /// The price of one unit of the reference currency, in attos.
    pub usd_price: u128,
    /// The price of one byte of substate-store growth, in attos.
    pub storage_price: u128,
    /// The tip percentage.
    pub tip_percentage: u16,
    /// Hard ceiling on execution cost units.
    pub cost_unit_limit: u32,
    /// Number of cost units fronted by the system loan.
    pub system_loan: u32,
    /// Abort the run as soon as the loan is repaid (dry-run mode).
    pub abort_when_loan_repaid: bool,
    /// Cached execution price with tips considered.
    pub effective_price: u128,
    /// Current balance, in attos.
    pub xrd_balance: u128,
    /// Amount still owed to the system, in attos.
    pub xrd_owed: u128,
    /// Execution units committed so far.
    pub execution_cost_committed: u32,
    /// Execution units deferred until the first repayment.
    pub execution_cost_deferred: u32,
    /// Total royalties committed, in attos.
    pub royalty_cost_committed: u128,
    /// Royalties committed, by recipient, in attos.
    pub royalty_cost_committed_breakdown: Vec<(RoyaltyRecipient, u128)>,
    /// Total storage-expansion cost committed, in attos.
    pub storage_cost_committed: u128,
    /// Fee payments taken from vaults during the run.
    pub locked_fees: Vec<(NodeId, LiquidFungibleResource, bool)>,
}

impl SystemLoanFeeReserve {
    /// Well-formedness: the configured prices are in range and the cached
    /// effective price agrees with its definition.
    pub open spec fn wf(self) -> bool {
        &&& self.cost_unit_price < PRICE_LIMIT
        &&& self.usd_price < PRICE_LIMIT
        &&& self.storage_price < PRICE_LIMIT
        &&& self.effective_price == self.cost_unit_price + (self.cost_unit_price as int) * (
        self.tip_percentage as int) / 100
        &&& self.effective_price < EFFECTIVE_PRICE_LIMIT
        &&& self.execution_cost_committed <= self.cost_unit_limit
    }

    /// Cost in attos of consuming `units` execution units.
    pub open spec fn ce_amount(self, units: u32) -> int {
        (self.effective_price as int) * (units as int)
    }

    /// One step of `consume_execution_internal`: the post-state together
    /// with the error, if any.  On an error the state is unchanged.
    pub open spec fn ce_int_step(self, units: u32) -> (SystemLoanFeeReserve, Option<
        FeeReserveError,
    >) {
        if self.execution_cost_committed + units > u32::MAX {
            (self, Some(FeeReserveError::Overflow))
        } else if self.execution_cost_committed + units > self.cost_unit_limit {
            (
                self,
                Some(FeeReserveError::LimitExceeded {
                    limit: self.cost_unit_limit,
                    committed: self.execution_cost_committed,
                    new: units,
                }),
            )
        } else if (self.xrd_balance as int) < self.ce_amount(units) {
            (
                self,
                Some(FeeReserveError::InsufficientBalance {
                    required: Decimal { attos: self.ce_amount(units) as u128 },
                    remaining: Decimal { attos: self.xrd_balance },
                }),
            )
        } else {
            (
                SystemLoanFeeReserve {
                    xrd_balance: (self.xrd_balance - self.ce_amount(units)) as u128,
                    execution_cost_committed: (self.execution_cost_committed + units) as u32,
                    ..self
                },
                None,
            )
        }
    }

    /// One step of `repay_all`: settle the deferred execution cost, then
    /// repay as much of the loan as the balance covers.
    pub open spec fn repay_step(self) -> (SystemLoanFeeReserve, Option<FeeReserveError>) {
        let (sd, e) = self.ce_int_step(self.execution_cost_deferred);
        if e is Some {
            (self, e)
        } else {
            let s1 = SystemLoanFeeReserve { execution_cost_deferred: 0, ..sd };
            let pay = if s1.xrd_balance <= s1.xrd_owed {
                s1.xrd_balance
            } else {
                s1.xrd_owed
            };
            let s2 = SystemLoanFeeReserve {
                xrd_balance: (s1.xrd_balance - pay) as u128,
                xrd_owed: (s1.xrd_owed - pay) as u128,
                ..s1
            };
            if s2.xrd_owed != 0 {
                (s2, Some(FeeReserveError::LoanRepaymentFailed))
            } else if s2.abort_when_loan_repaid {
                (
                    s2,
                    Some(FeeReserveError::Abort(
                        AbortReason::ConfiguredAbortTriggeredOnFeeLoanRepayment,
                    )),
                )
            } else {
                (s2, None)
            }
        }
    }

    /// Whether the committed units have reached the loan threshold while
    /// the loan is still outstanding, which forces a repayment.
    pub open spec fn repay_due(self) -> bool {
        self.xrd_owed != 0 && self.execution_cost_committed >= self.system_loan
    }

    /// One step of `consume_execution`: the zero shortcut, the internal
    /// consumption, then a forced repayment when the loan falls due.
    pub open spec fn consume_execution_step(self, units: u32) -> (SystemLoanFeeReserve, Option<
        FeeReserveError,
    >) {
        if units == 0 {
            (self, None)
        } else {
            let (s1, e) = self.ce_int_step(units);
            if e is Some {
                (self, e)
            } else if s1.repay_due() {
                s1.repay_step()
            } else {
                (s1, None)
            }
        }
    }

    /// Royalty amount in attos, after conversion of reference-currency
    /// amounts through the stored exchange price.
    pub open spec fn royalty_xrd(self, amount: RoyaltyAmount) -> int {
        match amount {
            RoyaltyAmount::Xrd(d) => d.attos as int,
            RoyaltyAmount::Usd(d) => (d.attos as int) * (self.usd_price as int) / (
            ATTOS_PER_UNIT as int),
            RoyaltyAmount::Free => 0,
        }
    }

    /// The breakdown after charging `amount` to `recipient`.
    pub open spec fn bd_after(self, recipient: RoyaltyRecipient, amount: int) -> Seq<
        (RoyaltyRecipient, u128),
    > {
        let s = self.royalty_cost_committed_breakdown@;
        match bd_find(s, recipient) {
            Some(i) => s.update(i, (recipient, (s[i].1 + amount) as u128)),
            None => s.push((recipient, amount as u128)),
        }
    }

    /// Whether charging `amount` to `recipient` overflows a breakdown
    /// entry.
    pub open spec fn bd_overflows(self, recipient: RoyaltyRecipient, amount: int) -> bool {
        let s = self.royalty_cost_committed_breakdown@;
        match bd_find(s, recipient) {
            Some(i) => s[i].1 + amount > u128::MAX,
            None => false,
        }
    }

    /// One step of `consume_royalty_internal`.
    pub open spec fn cr_int_step(self, amount: RoyaltyAmount, recipient: RoyaltyRecipient) -> (
        SystemLoanFeeReserve,
        Option<FeeReserveError>,
    ) {
        if amount matches RoyaltyAmount::Usd(d) && (d.attos as int) * (self.usd_price as int)
            > u128::MAX {
            (self, Some(FeeReserveError::Overflow))
        } else {
            let a = self.royalty_xrd(amount);
            if (self.xrd_balance as int) < a {
                (
                    self,
                    Some(FeeReserveError::InsufficientBalance {
                        required: Decimal { attos: a as u128 },
                        remaining: Decimal { attos: self.xrd_balance },
                    }),
                )
            } else if self.royalty_cost_committed + a > u128::MAX || self.bd_overflows(
                recipient,
                a,
            ) {
                (self, Some(FeeReserveError::Overflow))
            } else {
                (
                    SystemLoanFeeReserve {
                        xrd_balance: (self.xrd_balance - a) as u128,
                        royalty_cost_committed: (self.royalty_cost_committed + a) as u128,
                        royalty_cost_committed_breakdown: self.royalty_cost_committed_breakdown,
                        ..self
                    },
                    None,
                )
            }
        }
    }

    /// One step of `consume_royalty`, including the forced repayment.
    /// The breakdown of the post-state is `bd_after`; `cr_int_step` keeps
    /// the field itself so the step stays a plain record update.
    pub open spec fn consume_royalty_step(self, amount: RoyaltyAmount, recipient: RoyaltyRecipient)
        -> (SystemLoanFeeReserve, Option<FeeReserveError>) {
        let (s1, e) = self.cr_int_step(amount, recipient);
        if e is Some {
            (self, e)
        } else if s1.repay_due() {
            s1.repay_step()
        } else {
            (s1, None)
        }
    }

    pub fn new(
        cost_unit_price: Decimal,
        usd_price: Decimal,
        state_expansion_price: Decimal,
        tip_percentage: u16,
        cost_unit_limit: u32,
        system_loan: u32,
        abort_when_loan_repaid: bool,
    ) -> (r: SystemLoanFeeReserve)
        requires
            cost_unit_price.attos < PRICE_LIMIT,
            usd_price.attos < PRICE_LIMIT,
            state_expansion_price.attos < PRICE_LIMIT,
        ensures
            r.wf(),
            r.cost_unit_price == cost_unit_price.attos,
            r.usd_price == usd_price.attos,
            r.storage_price == state_expansion_price.attos,
            r.tip_percentage == tip_percentage,
            r.cost_unit_limit == cost_unit_limit,
            r.system_loan == system_loan,
            r.abort_when_loan_repaid == abort_when_loan_repaid,
            r.xrd_balance == (r.effective_price as int) * (system_loan as int),
            r.xrd_owed == r.xrd_balance,
            r.execution_cost_committed == 0,
            r.execution_cost_deferred == 0,
            r.royalty_cost_committed == 0,
            r.royalty_cost_committed_breakdown@ =~= Seq::<(RoyaltyRecipient, u128)>::empty(),
            r.storage_cost_committed == 0,
            r.locked_fees@ =~= Seq::<(NodeId, LiquidFungibleResource, bool)>::empty(),
    {
        proof {
            lemma_mul_le(cost_unit_price.attos as int, tip_percentage as int, PRICE_LIMIT - 1, 65535);
            lemma_div_ordered(
                (cost_unit_price.attos as int) * (tip_percentage as int),
                (PRICE_LIMIT - 1) * 65535,
                100,
            );
        }
        let tip_part: u128 = cost_unit_price.attos * (tip_percentage as u128) / 100;
        let effective_price: u128 = cost_unit_price.attos + tip_part;
        proof {
            lemma_mul_le(effective_price as int, system_loan as int, EFFECTIVE_PRICE_LIMIT - 1, u32::MAX as int);
        }
        let loan_amount: u128 = effective_price * (system_loan as u128);
        SystemLoanFeeReserve {
            cost_unit_price: cost_unit_price.attos,
            usd_price: usd_price.attos,
            storage_price: state_expansion_price.attos,
            tip_percentage,
            cost_unit_limit,
            system_loan,
            abort_when_loan_repaid,
            effective_price,
            xrd_balance: loan_amount,
            xrd_owed: loan_amount,
            execution_cost_committed: 0,
            execution_cost_deferred: 0,
            royalty_cost_committed: 0,
            royalty_cost_committed_breakdown: Vec::new(),
            storage_cost_committed: 0,
            locked_fees: Vec::new(),
        }
    }

    /// Adds a free credit to the balance, for preview execution.
    pub fn with_free_credit(self, xrd_amount: Decimal) -> (r: SystemLoanFeeReserve)
        requires
            self.xrd_balance + xrd_amount.attos <= u128::MAX,
        ensures
            r == (SystemLoanFeeReserve {
                xrd_balance: (self.xrd_balance + xrd_amount.attos) as u128,
                ..self
            }),
    {
        let mut s = self;
        s.xrd_balance = s.xrd_balance + xrd_amount.attos;
        s
    }

    pub fn cost_unit_limit(&self) -> (r: u32)
        ensures
            r == self.cost_unit_limit,
    {
        self.cost_unit_limit
    }

    pub fn cost_unit_price(&self) -> (r: Decimal)
        ensures
            r.attos == self.cost_unit_price,
    {
        Decimal { attos: self.cost_unit_price }
    }

    /// The tip added on top of one cost unit, in attos.
    pub fn tip_price(&self) -> (r: Decimal)
        requires
            self.wf(),
        ensures
            r.attos == (self.cost_unit_price as int) * (self.tip_percentage as int) / 100,
            r.attos <= self.effective_price,
    {
        proof {
            lemma_mul_le(self.cost_unit_price as int, self.tip_percentage as int, PRICE_LIMIT - 1, 65535);
        }
        Decimal { attos: self.cost_unit_price * (self.tip_percentage as u128) / 100 }
    }

    pub fn usd_price(&self) -> (r: Decimal)
        ensures
            r.attos == self.usd_price,
    {
        Decimal { attos: self.usd_price }
    }

    pub fn tip_percentage(&self) -> (r: u32)
        ensures
            r == self.tip_percentage,
    {
        self.tip_percentage as u32
    }

    pub fn fee_balance(&self) -> (r: Decimal)
        ensures
            r.attos == self.xrd_balance,
    {
        Decimal { attos: self.xrd_balance }
    }

    /// Whether the system loan has been fully repaid.
    pub fn fully_repaid(&self) -> (r: bool)
        ensures
            r == (self.xrd_owed == 0),
    {
        self.xrd_owed == 0
    }

    /// Rejects a consumption that would exceed the cost-unit ceiling.
    fn check_cost_unit_limit(&self, cost_units: u32) -> (r: Result<(), FeeReserveError>)
        ensures
            self.execution_cost_committed + cost_units > u32::MAX ==> r == Err::<
                (),
                FeeReserveError,
            >(FeeReserveError::Overflow),
            self.execution_cost_committed + cost_units <= u32::MAX
                && self.execution_cost_committed + cost_units > self.cost_unit_limit ==> r == Err::<
                (),
                FeeReserveError,
            >(FeeReserveError::LimitExceeded {
                limit: self.cost_unit_limit,
                committed: self.execution_cost_committed,
                new: cost_units,
            }),
            self.execution_cost_committed + cost_units <= self.cost_unit_limit ==> r is Ok,
    {
        match self.execution_cost_committed.checked_add(cost_units) {
            Some(total) => {
                if total > self.cost_unit_limit {
                    Err(FeeReserveError::LimitExceeded {
                        limit: self.cost_unit_limit,
                        committed: self.execution_cost_committed,
                        new: cost_units,
                    })
                } else {
                    Ok(())
                }
            },
            None => Err(FeeReserveError::Overflow),
        }
    }

    /// Debits the cost of `cost_units` execution units from the balance.
    fn consume_execution_internal(&mut self, cost_units: u32) -> (r: Result<(), FeeReserveError>)
        requires
            old(self).wf(),
        ensures
            final(self).wf(),
            ({
                let (s2, e) = old(self).ce_int_step(cost_units);
                *final(self) == s2 && (match r {
                    Ok(_) => e is None,
                    Err(err) => e == Some(err),
                })
            }),
    {
        match self.check_cost_unit_limit(cost_units) {
            Ok(_) => {},
            Err(e) => {
                return Err(e);
            },
        }
        proof {
            lemma_mul_le(self.effective_price as int, cost_units as int, EFFECTIVE_PRICE_LIMIT - 1, u32::MAX as int);
        }
        let amount: u128 = self.effective_price * (cost_units as u128);
        if self.xrd_balance < amount {
            Err(FeeReserveError::InsufficientBalance {
                required: Decimal { attos: amount },
                remaining: Decimal { attos: self.xrd_balance },
            })
        } else {
            self.xrd_balance = self.xrd_balance - amount;
            self.execution_cost_committed = self.execution_cost_committed + cost_units;
            Ok(())
        }
    }

    /// Settles the deferred execution cost, then repays the loan from the
    /// balance.  Fails with `LoanRepaymentFailed` when the balance cannot
    /// cover the whole loan; the partial repayment is kept either way, so
    /// the amount owed never increases.
    pub fn repay_all(&mut self) -> (r: Result<(), FeeReserveError>)
        requires
            old(self).wf(),
        ensures
            final(self).wf(),
            ({
                let (s2, e) = old(self).repay_step();
                *final(self) == s2 && (match r {
                    Ok(_) => e is None,
                    Err(err) => e == Some(err),
                })
            }),
            final(self).xrd_owed <= old(self).xrd_owed,
            r is Ok <==> ({
                let (s2, e) = old(self).repay_step();
                s2.xrd_owed == 0 && e is None
            }),
            old(self).execution_cost_deferred == 0 && !old(self).abort_when_loan_repaid ==> (r
                == Err::<(), FeeReserveError>(FeeReserveError::LoanRepaymentFailed) <==> old(
                self,
            ).xrd_owed > old(self).xrd_balance),
    {
        let deferred: u32 = self.execution_cost_deferred;
        match self.consume_execution_internal(deferred) {
            Ok(_) => {},
            Err(e) => {
                return Err(e);
            },
        }
        self.execution_cost_deferred = 0;

        let amount: u128 = if self.xrd_balance <= self.xrd_owed {
            self.xrd_balance
        } else {
            self.xrd_owed
        };
        self.xrd_owed = self.xrd_owed - amount;
        self.xrd_balance = self.xrd_balance - amount;

        if self.xrd_owed != 0 {
            return Err(FeeReserveError::LoanRepaymentFailed);
        }
        if self.abort_when_loan_repaid {
            return Err(FeeReserveError::Abort(
                AbortReason::ConfiguredAbortTriggeredOnFeeLoanRepayment,
            ));
        }
        Ok(())
    }

    /// Returns all committed royalties to the balance and clears the
    /// breakdown, for a run whose royalties are reverted.
    pub fn revert_royalty(&mut self)
        requires
            old(self).xrd_balance + old(self).royalty_cost_committed <= u128::MAX,
        ensures
            *final(self) == (SystemLoanFeeReserve {
                xrd_balance: (old(self).xrd_balance + old(self).royalty_cost_committed) as u128,
                royalty_cost_committed: 0,
                royalty_cost_committed_breakdown: final(self).royalty_cost_committed_breakdown,
                ..*old(self)
            }),
            final(self).royalty_cost_committed_breakdown@ =~= Seq::<
                (RoyaltyRecipient, u128),
            >::empty(),
    {
        self.xrd_balance = self.xrd_balance + self.royalty_cost_committed;
        self.royalty_cost_committed_breakdown = Vec::new();
        self.royalty_cost_committed = 0;
    }

    /// Records `cost_units` for settlement at the first repayment.  Only
    /// allowed before a transaction properly begins.
    pub fn consume_deferred(&mut self, cost_units: u32) -> (r: Result<(), FeeReserveError>)
        ensures
            cost_units == 0 ==> r is Ok && *final(self) == *old(self),
            cost_units > 0 && old(self).execution_cost_deferred + cost_units > u32::MAX ==> r
                == Err::<(), FeeReserveError>(FeeReserveError::Overflow) && *final(self) == *old(
                self,
            ),
            cost_units > 0 && old(self).execution_cost_deferred + cost_units <= u32::MAX ==> r
                is Ok && *final(self) == (SystemLoanFeeReserve {
                execution_cost_deferred: (old(self).execution_cost_deferred + cost_units) as u32,
                ..*old(self)
            }),
    {
        if cost_units == 0 {
            return Ok(());
        }
        match self.execution_cost_deferred.checked_add(cost_units) {
            Some(total) => {
                self.execution_cost_deferred = total;
                Ok(())
            },
            None => Err(FeeReserveError::Overflow),
        }
    }

    /// Consumes execution cost units, forcing a loan repayment once the
    /// committed units reach the loan threshold.
    pub fn consume_execution(&mut self, cost_units: u32) -> (r: Result<(), FeeReserveError>)
        requires
            old(self).wf(),
        ensures
            final(self).wf(),
            ({
                let (s2, e) = old(self).consume_execution_step(cost_units);
                *final(self) == s2 && (match r {
                    Ok(_) => e is None,
                    Err(err) => e == Some(err),
                })
            }),
            final(self).xrd_owed <= old(self).xrd_owed,
    {
        if cost_units == 0 {
            return Ok(());
        }
        match self.consume_execution_internal(cost_units) {
            Ok(_) => {},
            Err(e) => {
                return Err(e);
            },
        }
        if self.xrd_owed != 0 && self.execution_cost_committed >= self.system_loan {
            match self.repay_all() {
                Ok(_) => {},
                Err(e) => {
                    return Err(e);
                },
            }
        }
        Ok(())
    }

    /// Debits a royalty charge and accumulates the per-recipient
    /// breakdown.
    fn consume_royalty_internal(
        &mut self,
        royalty_amount: RoyaltyAmount,
        recipient: RoyaltyRecipient,
    ) -> (r: Result<(), FeeReserveError>)
        requires
            old(self).wf(),
        ensures
            final(self).wf(),
            ({
                let (s2, e) = old(self).cr_int_step(royalty_amount, recipient);
                (match r {
                    Ok(_) => e is None && *final(self) == (SystemLoanFeeReserve {
                        royalty_cost_committed_breakdown: final(self).royalty_cost_committed_breakdown,
                        ..s2
                    }) && final(self).royalty_cost_committed_breakdown@ == old(self).bd_after(
                        recipient,
                        old(self).royalty_xrd(royalty_amount),
                    ),
                    Err(err) => e == Some(err) && *final(self) == *old(self),
                })
            }),
    {
        let amount: u128 = match royalty_amount {
            RoyaltyAmount::Xrd(d) => d.attos,
            RoyaltyAmount::Usd(d) => {
                match d.attos.checked_mul(self.usd_price) {
                    Some(product) => product / ATTOS_PER_UNIT,
                    None => {
                        return Err(FeeReserveError::Overflow);
                    },
                }
            },
            RoyaltyAmount::Free => 0u128,
        };
        if self.xrd_balance < amount {
            return Err(FeeReserveError::InsufficientBalance {
                required: Decimal { attos: amount },
                remaining: Decimal { attos: self.xrd_balance },
            });
        }
        if self.royalty_cost_committed > u128::MAX - amount {
            return Err(FeeReserveError::Overflow);
        }
        let idx: Option<usize> = bd_find_exec(&self.royalty_cost_committed_breakdown, recipient);
        match idx {
            Some(i) => {
                let current: u128 = self.royalty_cost_committed_breakdown[i].1;
                if current > u128::MAX - amount {
                    return Err(FeeReserveError::Overflow);
                }
                self.royalty_cost_committed_breakdown.set(i, (recipient, current + amount));
            },
            None => {
                self.royalty_cost_committed_breakdown.push((recipient, amount));
            },
        }
        self.xrd_balance = self.xrd_balance - amount;
        self.royalty_cost_committed = self.royalty_cost_committed + amount;
        Ok(())
    }

    /// Consumes a royalty charge, forcing a loan repayment once the
    /// committed units reach the loan threshold.
    pub fn consume_royalty(
        &mut self,
        royalty_amount: RoyaltyAmount,
        recipient: RoyaltyRecipient,
    ) -> (r: Result<(), FeeReserveError>)
        requires
            old(self).wf(),
        ensures
            final(self).wf(),
            royalty_amount.is_zero_spec() ==> r is Ok && *final(self) == *old(self),
            !royalty_amount.is_zero_spec() ==> ({
                let (s1, e1) = old(self).cr_int_step(royalty_amount, recipient);
                let (s2, e) = old(self).consume_royalty_step(royalty_amount, recipient);
                &&& (match r {
                    Ok(_) => e is None,
                    Err(err) => e == Some(err),
                })
                &&& (e1 is Some ==> *final(self) == *old(self))
                &&& (e1 is None ==> *final(self) == (SystemLoanFeeReserve {
                    royalty_cost_committed_breakdown: final(self).royalty_cost_committed_breakdown,
                    ..s2
                }) && final(self).royalty_cost_committed_breakdown@ == old(self).bd_after(
                    recipient,
                    old(self).royalty_xrd(royalty_amount),
                ))
            }),
            final(self).xrd_owed <= old(self).xrd_owed,
    {
        let ghost pre = *self;
        if royalty_amount.is_zero() {
            return Ok(());
        }
        match self.consume_royalty_internal(royalty_amount, recipient) {
            Ok(_) => {},
            Err(e) => {
                return Err(e);
            },
        }
        proof {
            lemma_repay_step_bd_indep(pre.cr_int_step(royalty_amount, recipient).0, *self);
        }
        if self.xrd_owed != 0 && self.execution_cost_committed >= self.system_loan {
            match self.repay_all() {
                Ok(_) => {},
                Err(e) => {
                    return Err(e);
                },
            }
        }
        Ok(())
    }

    /// Charges for the growth in stored substate size caused by one
    /// commit.  Only positive growth is charged; shrinkage and deletes
    /// are free.
    pub fn consume_state_expansion(&mut self, store_commit: &StoreCommit) -> (r: Result<
        (),
        FeeReserveError,
    >)
        requires
            old(self).wf(),
        ensures
            final(self).wf(),
            ({
                let delta = store_commit.spec_growth();
                let amount = if (old(self).storage_price as int) * delta > u128::MAX {
                    u128::MAX as int
                } else {
                    (old(self).storage_price as int) * delta
                };
                &&& (old(self).xrd_balance as int) < amount ==> r == Err::<(), FeeReserveError>(
                    FeeReserveError::InsufficientBalance {
                        required: Decimal { attos: amount as u128 },
                        remaining: Decimal { attos: old(self).xrd_balance },
                    },
                ) && *final(self) == *old(self)
                &&& (old(self).xrd_balance as int) >= amount && old(self).storage_cost_committed
                    + amount > u128::MAX ==> r == Err::<(), FeeReserveError>(
                    FeeReserveError::Overflow,
                ) && *final(self) == *old(self)
                &&& (old(self).xrd_balance as int) >= amount && old(self).storage_cost_committed
                    + amount <= u128::MAX ==> r is Ok && *final(self) == (SystemLoanFeeReserve {
                    xrd_balance: (old(self).xrd_balance - amount) as u128,
                    storage_cost_committed: (old(self).storage_cost_committed + amount) as u128,
                    ..*old(self)
                })
            }),
    {
        let delta: usize = store_commit.growth();
        let amount: u128 = match self.storage_price.checked_mul(delta as u128) {
            Some(product) => product,
            None => u128::MAX,
        };
        if self.xrd_balance < amount {
            return Err(FeeReserveError::InsufficientBalance {
                required: Decimal { attos: amount },
                remaining: Decimal { attos: self.xrd_balance },
            });
        }
        if self.storage_cost_committed > u128::MAX - amount {
            return Err(FeeReserveError::Overflow);
        }
        self.xrd_balance = self.xrd_balance - amount;
        self.storage_cost_committed = self.storage_cost_committed + amount;
        Ok(())
    }

    /// Credits the balance for a non-contingent fee payment, records the
    /// payment for later settlement, and hands the emptied resource back.
    pub fn lock_fee(
        &mut self,
        vault_id: NodeId,
        fee: LiquidFungibleResource,
        contingent: bool,
    ) -> (r: Result<LiquidFungibleResource, FeeReserveError>)
        ensures
            !contingent && old(self).xrd_balance + fee.amount.attos > u128::MAX ==> r == Err::<
                LiquidFungibleResource,
                FeeReserveError,
            >(FeeReserveError::Overflow) && *final(self) == *old(self),
            (contingent || old(self).xrd_balance + fee.amount.attos <= u128::MAX) ==> ({
                &&& r == Ok::<LiquidFungibleResource, FeeReserveError>(LiquidFungibleResource {
                    amount: Decimal { attos: 0 },
                })
                &&& final(self).xrd_balance == if contingent {
                    old(self).xrd_balance as int
                } else {
                    old(self).xrd_balance + fee.amount.attos
                }
                &&& final(self).locked_fees@ == old(self).locked_fees@.push(
                    (vault_id, fee, contingent),
                )
                &&& *final(self) == (SystemLoanFeeReserve {
                    xrd_balance: final(self).xrd_balance,
                    locked_fees: final(self).locked_fees,
                    ..*old(self)
                })
            }),
    {
        let mut fee = fee;
        if !contingent {
            if self.xrd_balance > u128::MAX - fee.amount.attos {
                return Err(FeeReserveError::Overflow);
            }
            self.xrd_balance = self.xrd_balance + fee.amount.attos;
        }
        let taken = fee.take_all();
        self.locked_fees.push((vault_id, taken, contingent));
        Ok(fee)
    }

    /// Produces the immutable fee summary.  The distribution identity of
    /// `lemma_fee_distribution_balanced` holds of the result by
    /// construction.
    pub fn finalize(self) -> (s: FeeSummary)
        requires
            self.wf(),
        ensures
            s.execution_cost_unit_limit == self.cost_unit_limit,
            s.execution_cost_unit_price.attos == self.cost_unit_price,
            s.usd_price_in_xrd.attos == self.usd_price,
            s.storage_price_in_xrd.attos == self.storage_price,
            s.tip_percentage == self.tip_percentage,
            s.total_execution_cost_in_xrd.attos == (self.cost_unit_price as int) * (
            self.execution_cost_committed as int),
            s.total_execution_cost_units_consumed == self.execution_cost_committed,
            s.total_tipping_cost_in_xrd.attos == ((self.cost_unit_price as int) * (
            self.tip_percentage as int) / 100) * (self.execution_cost_committed as int),
            s.total_royalty_cost_in_xrd.attos == self.royalty_cost_committed,
            s.total_storage_cost_in_xrd.attos == self.storage_cost_committed,
            s.total_bad_debt_in_xrd.attos == self.xrd_owed,
            s.locked_fees@ == self.locked_fees@,
            s.royalty_cost_breakdown@.len() == self.royalty_cost_committed_breakdown@.len(),
            forall|i: int|
                0 <= i < s.royalty_cost_breakdown@.len() ==> s.royalty_cost_breakdown@[i] == (
                self.royalty_cost_committed_breakdown@[i].0,
                Decimal { attos: self.royalty_cost_committed_breakdown@[i].1 },
                ),
    {
        proof {
            lemma_mul_le(self.cost_unit_price as int, self.execution_cost_committed as int, PRICE_LIMIT - 1, u32::MAX as int);
        }
        let execution_total: u128 = self.cost_unit_price * (self.execution_cost_committed as u128);
        let tip_price = self.tip_price();
        proof {
            lemma_mul_le(tip_price.attos as int, self.execution_cost_committed as int, EFFECTIVE_PRICE_LIMIT - 1, u32::MAX as int);
        }
        let tipping_total: u128 = tip_price.attos * (self.execution_cost_committed as u128);

        let mut breakdown: Vec<(RoyaltyRecipient, Decimal)> = Vec::new();
        let n: usize = self.royalty_cost_committed_breakdown.len();
        let mut i: usize = 0;
        while i < n
            invariant
                i <= n,
                n == self.royalty_cost_committed_breakdown@.len(),
                breakdown@.len() == i,
                forall|j: int|
                    0 <= j < i ==> breakdown@[j] == (
                    self.royalty_cost_committed_breakdown@[j].0,
                    Decimal { attos: self.royalty_cost_committed_breakdown@[j].1 },
                    ),
            decreases n - i,
        {
            let entry = self.royalty_cost_committed_breakdown[i];
            breakdown.push((entry.0, Decimal { attos: entry.1 }));
            i = i + 1;
        }

        FeeSummary {
            execution_cost_unit_limit: self.cost_unit_limit,
            execution_cost_unit_price: Decimal { attos: self.cost_unit_price },
            usd_price_in_xrd: Decimal { attos: self.usd_price },
            storage_price_in_xrd: Decimal { attos: self.storage_price },
            tip_percentage: self.tip_percentage,
            total_execution_cost_in_xrd: Decimal { attos: execution_total },
            total_execution_cost_units_consumed: self.execution_cost_committed,
            total_tipping_cost_in_xrd: Decimal { attos: tipping_total },
            total_royalty_cost_in_xrd: Decimal { attos: self.royalty_cost_committed },
            total_storage_cost_in_xrd: Decimal { attos: self.storage_cost_committed },
            total_bad_debt_in_xrd: Decimal { attos: self.xrd_owed },
            locked_fees: self.locked_fees,
            royalty_cost_breakdown: breakdown,
        }
    }
}

/// Finds the first breakdown entry for `key`.
fn bd_find_exec(v: &Vec<(RoyaltyRecipient, u128)>, key: RoyaltyRecipient) -> (r: Option<usize>)
    ensures
        match r {
            Some(i) => bd_find(v@, key) == Some(i as int) && i < v@.len() && v@[i as int].0 == key,
            None => bd_find(v@, key) is None,
        },
{
    let n: usize = v.len();
    let mut i: usize = 0;
    while i < n
        invariant
            i <= n,
            n == v@.len(),
            forall|j: int| 0 <= j < i ==> v@[j].0 != key,
        decreases n - i,
    {
        if v[i].0 == key {
            proof {
                lemma_bd_find_prefix(v@, key, i as int);
            }
            return Some(i);
        }
        i = i + 1;
    }
    proof {
        lemma_bd_find_none(v@, key);
    }
    None
}

/// If no entry before `i` matches and entry `i` matches, the first match
/// is at `i`.
proof fn lemma_bd_find_prefix(s: Seq<(RoyaltyRecipient, u128)>, key: RoyaltyRecipient, i: int)
    requires
        0 <= i < s.len(),
        forall|j: int| 0 <= j < i ==> s[j].0 != key,
        s[i].0 == key,
    ensures
        bd_find(s, key) == Some(i),
    decreases i,
{
    if i == 0 {
    } else {
        assert(s.drop_first()[i - 1].0 == key);
        assert(forall|j: int| 0 <= j < i - 1 ==> s.drop_first()[j] == s[j + 1]);
        lemma_bd_find_prefix(s.drop_first(), key, i - 1);
    }
}

/// If no entry matches, the search yields nothing.
proof fn lemma_bd_find_none(s: Seq<(RoyaltyRecipient, u128)>, key: RoyaltyRecipient)
    requires
        forall|j: int| 0 <= j < s.len() ==> s[j].0 != key,
    ensures
        bd_find(s, key) is None,
    decreases s.len(),
{
    if s.len() == 0 {
    } else {
        assert(forall|j: int| 0 <= j < s.drop_first().len() ==> s.drop_first()[j] == s[j + 1]);
        lemma_bd_find_none(s.drop_first(), key);
    }
}

/// `a <= ca` and `b <= cb` bound the product by `ca * cb`.
proof fn lemma_mul_le(a: int, b: int, ca: int, cb: int)
    by (nonlinear_arith)
    requires
        0 <= a <= ca,
        0 <= b <= cb,
    ensures
        a * b <= ca * cb,
{
}

/// Division by a positive denominator is monotone in the dividend.
proof fn lemma_div_ordered(x: int, y: int, d: int)
    by (nonlinear_arith)
    requires
        0 <= x <= y,
        1 <= d,
    ensures
        x / d <= y / d,
{
}

/// The repayment step reads and writes every field but the royalty
/// breakdown, which it carries through unchanged.
proof fn lemma_repay_step_bd_indep(a: SystemLoanFeeReserve, b: SystemLoanFeeReserve)
    requires
        b == (SystemLoanFeeReserve {
            royalty_cost_committed_breakdown: b.royalty_cost_committed_breakdown,
            ..a
        }),
    ensures
        b.repay_step().0 == (SystemLoanFeeReserve {
            royalty_cost_committed_breakdown: b.royalty_cost_committed_breakdown,
            ..a.repay_step().0
        }),
        b.repay_step().1 == a.repay_step().1,
{
    assert(b.ce_int_step(b.execution_cost_deferred).1 == a.ce_int_step(
        a.execution_cost_deferred,
    ).1);
    assert(b.ce_int_step(b.execution_cost_deferred).0 == (SystemLoanFeeReserve {
        royalty_cost_committed_breakdown: b.royalty_cost_committed_breakdown,
        ..a.ce_int_step(a.execution_cost_deferred).0
    }));
}

/// The amount owed to the system never increases across a repayment
/// step, whatever the state.
pub proof fn lemma_repay_owed_monotone(s: SystemLoanFeeReserve)
    ensures
        s.repay_step().0.xrd_owed <= s.xrd_owed,
{
}

/// Across any chain of states linked by repayment steps, the amount owed
/// is non-increasing from the first state to the last.
pub proof fn lemma_repay_chain_owed_monotone(states: Seq<SystemLoanFeeReserve>)
    requires
        states.len() > 0,
        forall|i: int|
            0 <= i < states.len() - 1 ==> #[trigger] states[i + 1] == states[i].repay_step().0,
    ensures
        states.last().xrd_owed <= states.first().xrd_owed,
    decreases states.len(),
{
    if states.len() > 1 {
        let rest = states.drop_first();
        assert(forall|i: int|
            0 <= i < rest.len() - 1 ==> #[trigger] rest[i + 1] == rest[i].repay_step().0) by {
            assert(forall|i: int|
                0 <= i < rest.len() - 1 ==> #[trigger] rest[i + 1] == states[i + 2] && rest[i]
                    == states[i + 1]);
        }
        lemma_repay_chain_owed_monotone(rest);
        assert(states[1] == states[0].repay_step().0);
    }
}


/// Default fee configuration.
pub const DEFAULT_COST_UNIT_PRICE_ATTOS: u128 = 10_000_000_000;

pub const DEFAULT_USD_PRICE_ATTOS: u128 = 10_000_000_000_000_000_000;

pub const DEFAULT_STORAGE_PRICE_ATTOS: u128 = 1_000_000_000;

pub const DEFAULT_COST_UNIT_LIMIT: u32 = 100_000_000;

pub const DEFAULT_SYSTEM_LOAN_AMOUNT: u32 = 10_000_000;

impl Default for SystemLoanFeeReserve {
    /// A reserve with the default fee configuration.
    fn default() -> (r: SystemLoanFeeReserve)
        ensures
            r.wf(),
            r.cost_unit_price == DEFAULT_COST_UNIT_PRICE_ATTOS,
            r.cost_unit_limit == DEFAULT_COST_UNIT_LIMIT,
            r.system_loan == DEFAULT_SYSTEM_LOAN_AMOUNT,
            r.tip_percentage == 0,
            !r.abort_when_loan_repaid,
    {
        SystemLoanFeeReserve::new(
            Decimal { attos: DEFAULT_COST_UNIT_PRICE_ATTOS },
            Decimal { attos: DEFAULT_USD_PRICE_ATTOS },
            Decimal { attos: DEFAULT_STORAGE_PRICE_ATTOS },
            0,
            DEFAULT_COST_UNIT_LIMIT,
            DEFAULT_SYSTEM_LOAN_AMOUNT,
            false,
        )
    }
}

/// Metering allowed only before a transaction properly begins.
pub trait PreExecutionFeeReserve {
    /// The invariant the reserve keeps across metering calls.
    spec fn inv(&self) -> bool;

    fn consume_deferred(&mut self, cost_units: u32) -> (r: Result<(), FeeReserveError>)
        requires
            old(self).inv(),
        ensures
            final(self).inv(),
    ;
}

/// Metering during execution.
pub trait ExecutionFeeReserve {
    /// The invariant the reserve keeps across metering calls.
    spec fn inv(&self) -> bool;

    fn consume_state_expansion(&mut self, store_commit: &StoreCommit) -> (r: Result<
        (),
        FeeReserveError,
    >)
        requires
            old(self).inv(),
        ensures
            final(self).inv(),
    ;

    fn consume_royalty(
        &mut self,
        royalty_amount: RoyaltyAmount,
        recipient: RoyaltyRecipient,
    ) -> (r: Result<(), FeeReserveError>)
        requires
            old(self).inv(),
        ensures
            final(self).inv(),
    ;

    fn consume_execution(&mut self, cost_units: u32) -> (r: Result<(), FeeReserveError>)
        requires
            old(self).inv(),
        ensures
            final(self).inv(),
    ;

    fn lock_fee(
        &mut self,
        vault_id: NodeId,
        fee: LiquidFungibleResource,
        contingent: bool,
    ) -> (r: Result<LiquidFungibleResource, FeeReserveError>)
        requires
            old(self).inv(),
        ensures
            final(self).inv(),
    ;
}

/// The single finalization of a reserve into its immutable summary.
pub trait FinalizingFeeReserve {
    /// The invariant the reserve keeps across metering calls.
    spec fn inv(&self) -> bool;

    fn finalize(self) -> FeeSummary
        requires
            self.inv(),
    ;
}

/// The full fee-reserve interface.
pub trait FeeReserve: PreExecutionFeeReserve + ExecutionFeeReserve + FinalizingFeeReserve {

}

impl PreExecutionFeeReserve for SystemLoanFeeReserve {
    open spec fn inv(&self) -> bool {
        self.wf()
    }

    fn consume_deferred(&mut self, cost_units: u32) -> Result<(), FeeReserveError> {
        SystemLoanFeeReserve::consume_deferred(self, cost_units)
    }
}

impl ExecutionFeeReserve for SystemLoanFeeReserve {
    open spec fn inv(&self) -> bool {
        self.wf()
    }

    fn consume_state_expansion(&mut self, store_commit: &StoreCommit) -> Result<
        (),
        FeeReserveError,
    > {
        SystemLoanFeeReserve::consume_state_expansion(self, store_commit)
    }

    fn consume_royalty(
        &mut self,
        royalty_amount: RoyaltyAmount,
        recipient: RoyaltyRecipient,
    ) -> Result<(), FeeReserveError> {
        SystemLoanFeeReserve::consume_royalty(self, royalty_amount, recipient)
    }

    fn consume_execution(&mut self, cost_units: u32) -> Result<(), FeeReserveError> {
        SystemLoanFeeReserve::consume_execution(self, cost_units)
    }

    fn lock_fee(
        &mut self,
        vault_id: NodeId,
        fee: LiquidFungibleResource,
        contingent: bool,
    ) -> Result<LiquidFungibleResource, FeeReserveError> {
        SystemLoanFeeReserve::lock_fee(self, vault_id, fee, contingent)
    }
}

impl FinalizingFeeReserve for SystemLoanFeeReserve {
    open spec fn inv(&self) -> bool {
        self.wf()
    }

    fn finalize(self) -> FeeSummary {
        SystemLoanFeeReserve::finalize(self)
    }
}

impl FeeReserve for SystemLoanFeeReserve {

}

} // verus!
