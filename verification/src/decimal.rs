//! Fixed-point token amounts.
//!
//! Every amount in the engine is a whole number of attos, where one token
//! is `ATTOS_PER_UNIT` attos.  Unsigned 128-bit arithmetic is wide enough
//! for every amount the fee rules admit; overflow is always surfaced as an
//! error by the callers, never wrapped.

use vstd::prelude::*;

verus! {

/// Number of attos in one whole token.
pub const ATTOS_PER_UNIT: u128 = 1_000_000_000_000_000_000;

/// A token amount: a count of attos (one atto is `10^-18` of a token).
#[derive(Debug, Clone, Copy, PartialEq, Eq, Structural)]
pub struct Decimal {
    pub attos: u128,
}

impl Decimal {
    pub fn from_attos(attos: u128) -> (r: Decimal)
        ensures
            r.attos == attos,
    {
        Decimal { attos }
    }

    pub fn from_units(units: u64) -> (r: Decimal)
        ensures
            r.attos == units * ATTOS_PER_UNIT,
    {
        Decimal { attos: (units as u128) * ATTOS_PER_UNIT }
    }

    pub fn zero() -> (r: Decimal)
        ensures
            r.attos == 0,
    {
        Decimal { attos: 0 }
    }

    pub fn is_zero(&self) -> (r: bool)
        ensures
            r == (self.attos == 0),
    {
        self.attos == 0
    }

    /// Sum of two amounts, or `None` when the sum does not fit.
    pub fn checked_add(&self, other: &Decimal) -> (r: Option<Decimal>)
        ensures
            self.attos + other.attos <= u128::MAX ==> r == Some(Decimal {
                attos: (self.attos + other.attos) as u128,
            }),
            self.attos + other.attos > u128::MAX ==> r is None,
    {
        if self.attos <= u128::MAX - other.attos {
            Some(Decimal { attos: self.attos + other.attos })
        } else {
            None
        }
    }

    /// Difference of two amounts, or `None` when `other` exceeds `self`.
    pub fn checked_sub(&self, other: &Decimal) -> (r: Option<Decimal>)
        ensures
            other.attos <= self.attos ==> r == Some(Decimal {
                attos: (self.attos - other.attos) as u128,
            }),
            other.attos > self.attos ==> r is None,
    {
        if other.attos <= self.attos {
            Some(Decimal { attos: self.attos - other.attos })
        } else {
            None
        }
    }
}

/// A royalty charge: denominated in the native token, in the reference
/// currency (converted through the stored exchange price), or waived.
#[derive(Debug, Clone, Copy, PartialEq, Eq, Structural)]
pub enum RoyaltyAmount {
    Xrd(Decimal),
    Usd(Decimal),
    Free,
}

impl RoyaltyAmount {
    /// Whether the charge amounts to nothing.
    pub open spec fn is_zero_spec(self) -> bool {
        match self {
            RoyaltyAmount::Xrd(d) => d.attos == 0,
            RoyaltyAmount::Usd(d) => d.attos == 0,
            RoyaltyAmount::Free => true,
        }
    }

    pub fn is_zero(&self) -> (r: bool)
        ensures
            r == self.is_zero_spec(),
    {
        match self {
            RoyaltyAmount::Xrd(d) => d.attos == 0,
            RoyaltyAmount::Usd(d) => d.attos == 0,
            RoyaltyAmount::Free => true,
        }
    }
}

/// A quantity of a fungible resource held liquid (not locked under proofs).
#[derive(Debug, Clone, PartialEq, Eq, Structural)]
pub struct LiquidFungibleResource {
    pub amount: Decimal,
}

impl LiquidFungibleResource {
    pub fn new(amount: Decimal) -> (r: LiquidFungibleResource)
        ensures
            r.amount == amount,
    {
        LiquidFungibleResource { amount }
    }

    pub fn amount(&self) -> (r: Decimal)
        ensures
            r == self.amount,
    {
        self.amount
    }

    pub fn is_empty(&self) -> (r: bool)
        ensures
            r == (self.amount.attos == 0),
    {
        self.amount.attos == 0
    }

    /// Empties this resource and hands the whole previous amount back.
    pub fn take_all(&mut self) -> (r: LiquidFungibleResource)
        ensures
            final(self).amount.attos == 0,
            r.amount == old(self).amount,
    {
        let taken = LiquidFungibleResource { amount: self.amount };
        self.amount = Decimal { attos: 0 };
        taken
    }

    /// Removes `amount` from this resource; fails when not enough is held.
    pub fn take_by_amount(&mut self, amount: Decimal) -> (r: Result<
        LiquidFungibleResource,
        ResourceError,
    >)
        ensures
            amount.attos <= old(self).amount.attos ==> r == Ok::<LiquidFungibleResource, ResourceError>(
                LiquidFungibleResource { amount },
            ) && final(self).amount.attos == old(self).amount.attos - amount.attos,
            amount.attos > old(self).amount.attos ==> r == Err::<LiquidFungibleResource, ResourceError>(
                ResourceError::InsufficientBalance,
            ) && *final(self) == *old(self),
    {
        if amount.attos <= self.amount.attos {
            self.amount = Decimal { attos: self.amount.attos - amount.attos };
            Ok(LiquidFungibleResource { amount })
        } else {
            Err(ResourceError::InsufficientBalance)
        }
    }

    /// Merges `other` into this resource; fails when the sum does not fit.
    pub fn put(&mut self, other: LiquidFungibleResource) -> (r: Result<(), ResourceError>)
        ensures
            old(self).amount.attos + other.amount.attos <= u128::MAX ==> r == Ok::<
                (),
                ResourceError,
            >(()) && final(self).amount.attos == old(self).amount.attos + other.amount.attos,
            old(self).amount.attos + other.amount.attos > u128::MAX ==> r == Err::<
                (),
                ResourceError,
            >(ResourceError::Overflow) && *final(self) == *old(self),
    {
        if self.amount.attos <= u128::MAX - other.amount.attos {
            self.amount = Decimal { attos: self.amount.attos + other.amount.attos };
            Ok(())
        } else {
            Err(ResourceError::Overflow)
        }
    }
}

/// Failures of resource-container arithmetic.
#[derive(Debug, Clone, Copy, PartialEq, Eq, Structural)]
pub enum ResourceError {
    InsufficientBalance,
    Overflow,
}

} // verus!
