//! The fungible vault: a liquid balance plus the amounts locked under
//! outstanding proofs.  The kernel stores both parts as substates; the
//! logic here is the balance arithmetic the vault blueprint performs
//! between reading them and writing them back.

use vstd::prelude::*;
use crate::decimal::{Decimal, LiquidFungibleResource, ResourceError, ATTOS_PER_UNIT};

verus! {

/// Failures of vault operations.
#[derive(Debug, Clone, Copy, PartialEq, Eq, Structural)]
pub enum VaultError {
    InvalidAmount,
    VaultFrozen,
    LockCountOverflow,
    ResourceError(ResourceError),
}

/// The amounts locked under outstanding proofs: each locked amount with
/// the number of proofs locking it.  The effectively locked amount is
/// the largest one.
#[derive(Debug, Clone, PartialEq, Eq)]
pub struct LockedFungibleResource {
    pub amounts: Vec<(u128, u64)>,
}

/// The largest locked amount, in attos; an empty lock table locks
/// nothing.
pub open spec fn spec_max_locked(s: Seq<(u128, u64)>) -> int
    decreases s.len(),
{
    if s.len() == 0 {
        0
    } else {
        let rest = spec_max_locked(s.drop_last());
        if s.last().0 > rest {
            s.last().0 as int
        } else {
            rest
        }
    }
}

/// First position of `amount` in the lock table, if any.
pub open spec fn spec_lock_find(s: Seq<(u128, u64)>, amount: u128) -> Option<int>
    decreases s.len(),
{
    if s.len() == 0 {
        None
    } else if s[0].0 == amount {
        Some(0)
    } else {
        match spec_lock_find(s.drop_first(), amount) {
            Some(i) => Some(i + 1),
            None => None,
        }
    }
}

impl LockedFungibleResource {
    pub fn new_empty() -> (r: LockedFungibleResource)
        ensures
            r.amounts@ =~= Seq::<(u128, u64)>::empty(),
    {
        LockedFungibleResource { amounts: Vec::new() }
    }

    /// The effectively locked amount.
    pub fn amount(&self) -> (r: Decimal)
        ensures
            r.attos == spec_max_locked(self.amounts@),
    {
        let n: usize = self.amounts.len();
        let mut best: u128 = 0;
        let mut i: usize = 0;
        proof {
            assert(self.amounts@.take(0) =~= Seq::<(u128, u64)>::empty());
        }
        while i < n
            invariant
                i <= n,
                n == self.amounts@.len(),
                best == spec_max_locked(self.amounts@.take(i as int)),
            decreases n - i,
        {
            let entry = self.amounts[i];
            proof {
                let t1 = self.amounts@.take(i + 1);
                assert(t1.drop_last() =~= self.amounts@.take(i as int));
                assert(t1.last() == self.amounts@[i as int]);
            }
            if entry.0 > best {
                best = entry.0;
            }
            i = i + 1;
        }
        proof {
            assert(self.amounts@.take(n as int) =~= self.amounts@);
        }
        Decimal { attos: best }
    }

    /// First position of `amount` in the table.
    fn find(&self, amount: u128) -> (r: Option<usize>)
        ensures
            match r {
                Some(i) => spec_lock_find(self.amounts@, amount) == Some(i as int) && i
                    < self.amounts@.len() && self.amounts@[i as int].0 == amount,
                None => spec_lock_find(self.amounts@, amount) is None,
            },
    {
        let n: usize = self.amounts.len();
        let mut i: usize = 0;
        while i < n
            invariant
                i <= n,
                n == self.amounts@.len(),
                forall|j: int| 0 <= j < i ==> (#[trigger] self.amounts@[j]).0 != amount,
            decreases n - i,
        {
            if self.amounts[i].0 == amount {
                proof {
                    lemma_lock_find_prefix(self.amounts@, amount, i as int);
                }
                return Some(i);
            }
            i = i + 1;
        }
        proof {
            lemma_lock_find_none(self.amounts@, amount);
        }
        None
    }
}

/// If no entry before `i` matches and entry `i` matches, the first
/// match is at `i`.
proof fn lemma_lock_find_prefix(s: Seq<(u128, u64)>, amount: u128, i: int)
    requires
        0 <= i < s.len(),
        forall|j: int| 0 <= j < i ==> (#[trigger] s[j]).0 != amount,
        s[i].0 == amount,
    ensures
        spec_lock_find(s, amount) == Some(i),
    decreases i,
{
    if i == 0 {
    } else {
        assert(s.drop_first()[i - 1].0 == amount);
        assert(forall|j: int| 0 <= j < i - 1 ==> s.drop_first()[j] == s[j + 1]);
        lemma_lock_find_prefix(s.drop_first(), amount, i - 1);
    }
}

/// If no entry matches, the search yields nothing.
proof fn lemma_lock_find_none(s: Seq<(u128, u64)>, amount: u128)
    requires
        forall|j: int| 0 <= j < s.len() ==> (#[trigger] s[j]).0 != amount,
    ensures
        spec_lock_find(s, amount) is None,
    decreases s.len(),
{
    if s.len() > 0 {
        assert(forall|j: int| 0 <= j < s.drop_first().len() ==> s.drop_first()[j] == s[j + 1]);
        lemma_lock_find_none(s.drop_first(), amount);
    }
}

/// A fungible vault: the liquid balance and the lock table.
#[derive(Debug, Clone, PartialEq, Eq)]
pub struct FungibleVault {
    pub liquid: LiquidFungibleResource,
    pub locked: LockedFungibleResource,
}

impl FungibleVault {
    pub fn new_empty() -> (r: FungibleVault)
        ensures
            r.liquid.amount.attos == 0,
            r.locked.amounts@ =~= Seq::<(u128, u64)>::empty(),
    {
        FungibleVault {
            liquid: LiquidFungibleResource::new(Decimal { attos: 0 }),
            locked: LockedFungibleResource::new_empty(),
        }
    }

    /// The liquid balance.
    pub fn liquid_amount(&self) -> (r: Decimal)
        ensures
            r == self.liquid.amount,
    {
        self.liquid.amount()
    }

    /// The effectively locked amount.
    pub fn locked_amount(&self) -> (r: Decimal)
        ensures
            r.attos == spec_max_locked(self.locked.amounts@),
    {
        self.locked.amount()
    }

    /// Withdraws `amount` from the liquid balance.
    pub fn take(&mut self, amount: Decimal) -> (r: Result<LiquidFungibleResource, VaultError>)
        ensures
            amount.attos <= old(self).liquid.amount.attos ==> r == Ok::<
                LiquidFungibleResource,
                VaultError,
            >(LiquidFungibleResource { amount }) && final(self).liquid.amount.attos == old(self).liquid.amount.attos - amount.attos && final(self).locked == old(self).locked,
            amount.attos > old(self).liquid.amount.attos ==> r == Err::<
                LiquidFungibleResource,
                VaultError,
            >(VaultError::ResourceError(ResourceError::InsufficientBalance)) && *final(self)
                == *old(self),
    {
        match self.liquid.take_by_amount(amount) {
            Ok(taken) => Ok(taken),
            Err(e) => Err(VaultError::ResourceError(e)),
        }
    }

    /// Deposits a resource into the liquid balance.
    pub fn put(&mut self, resource: LiquidFungibleResource) -> (r: Result<(), VaultError>)
        ensures
            old(self).liquid.amount.attos + resource.amount.attos <= u128::MAX ==> r is Ok
                && final(self).liquid.amount.attos == old(self).liquid.amount.attos
                + resource.amount.attos && final(self).locked == old(self).locked,
            old(self).liquid.amount.attos + resource.amount.attos > u128::MAX ==> r == Err::<
                (),
                VaultError,
            >(VaultError::ResourceError(ResourceError::Overflow)) && *final(self) == *old(self),
    {
        match self.liquid.put(resource) {
            Ok(_) => Ok(()),
            Err(e) => Err(VaultError::ResourceError(e)),
        }
    }

    /// Locks `amount` under one more proof: any part of it not already
    /// covered by the largest existing lock is taken from the liquid
    /// balance first.
    pub fn lock_amount(&mut self, amount: Decimal) -> (r: Result<Decimal, VaultError>)
        ensures
            ({
                let maxl = spec_max_locked(old(self).locked.amounts@);
                let delta = if amount.attos > maxl {
                    amount.attos - maxl
                } else {
                    0
                };
                let counted = match spec_lock_find(old(self).locked.amounts@, amount.attos) {
                    Some(i) => old(self).locked.amounts@[i].1 as int,
                    None => 0,
                };
                &&& (counted == u64::MAX ==> r == Err::<Decimal, VaultError>(
                    VaultError::LockCountOverflow,
                ) && *final(self) == *old(self))
                &&& (counted < u64::MAX && delta > old(self).liquid.amount.attos ==> r == Err::<
                    Decimal,
                    VaultError,
                >(VaultError::ResourceError(ResourceError::InsufficientBalance)) && *final(self)
                    == *old(self))
                &&& (counted < u64::MAX && delta <= old(self).liquid.amount.attos ==> r == Ok::<
                    Decimal,
                    VaultError,
                >(amount) && final(self).liquid.amount.attos == old(self).liquid.amount.attos
                    - delta && final(self).locked.amounts@ == (match spec_lock_find(
                    old(self).locked.amounts@,
                    amount.attos,
                ) {
                    Some(i) => old(self).locked.amounts@.update(
                        i,
                        (amount.attos, (counted + 1) as u64),
                    ),
                    None => old(self).locked.amounts@.push((amount.attos, 1u64)),
                }))
            }),
    {
        let max_locked = self.locked.amount();
        let found = self.locked.find(amount.attos);
        match found {
            Some(i) => {
                if self.locked.amounts[i].1 == u64::MAX {
                    return Err(VaultError::LockCountOverflow);
                }
            },
            None => {},
        }
        if amount.attos > max_locked.attos {
            let delta = Decimal { attos: amount.attos - max_locked.attos };
            match self.liquid.take_by_amount(delta) {
                Ok(_) => {},
                Err(e) => {
                    return Err(VaultError::ResourceError(e));
                },
            }
        }
        match found {
            Some(i) => {
                let count = self.locked.amounts[i].1;
                self.locked.amounts.set(i, (amount.attos, count + 1));
            },
            None => {
                self.locked.amounts.push((amount.attos, 1));
            },
        }
        Ok(amount)
    }

    /// Releases one proof's lock on `amount`: whatever the largest
    /// locked amount drops by returns to the liquid balance.  The
    /// amount must be locked.
    pub fn unlock_amount(&mut self, amount: Decimal) -> (r: Result<(), VaultError>)
        requires
            spec_lock_find(old(self).locked.amounts@, amount.attos) is Some,
        ensures
            ({
                let i = spec_lock_find(old(self).locked.amounts@, amount.attos)->Some_0;
                let counted = old(self).locked.amounts@[i].1;
                let shrunk = if counted > 1 {
                    old(self).locked.amounts@.update(i, (amount.attos, (counted - 1) as u64))
                } else {
                    old(self).locked.amounts@.remove(i)
                };
                let back = spec_max_locked(old(self).locked.amounts@) - spec_max_locked(shrunk);
                &&& (old(self).liquid.amount.attos + back <= u128::MAX ==> r is Ok && final(self).locked.amounts@ == shrunk && final(self).liquid.amount.attos == old(self).liquid.amount.attos + back)
                &&& (old(self).liquid.amount.attos + back > u128::MAX ==> r == Err::<
                    (),
                    VaultError,
                >(VaultError::ResourceError(ResourceError::Overflow)))
            }),
    {
        let max_locked = self.locked.amount();
        let found = self.locked.find(amount.attos);
        let i = match found {
            Some(i) => i,
            None => {
                proof {
                    assert(false);
                }
                return Err(VaultError::ResourceError(ResourceError::InsufficientBalance));
            },
        };
        let count = self.locked.amounts[i].1;
        if count > 1 {
            self.locked.amounts.set(i, (amount.attos, count - 1));
        } else {
            self.locked.amounts.remove(i);
        }
        let new_max = self.locked.amount();
        proof {
            if count > 1 {
                lemma_max_locked_update_count(old(self).locked.amounts@, i as int, (count - 1) as u64);
            } else {
                lemma_max_locked_remove(old(self).locked.amounts@, i as int);
            }
        }
        let delta = Decimal { attos: max_locked.attos - new_max.attos };
        match self.liquid.put(LiquidFungibleResource::new(delta)) {
            Ok(_) => Ok(()),
            Err(e) => Err(VaultError::ResourceError(e)),
        }
    }
}

/// Changing only the count of a lock-table entry leaves the largest
/// locked amount unchanged.
proof fn lemma_max_locked_update_count(s: Seq<(u128, u64)>, i: int, c: u64)
    requires
        0 <= i < s.len(),
    ensures
        spec_max_locked(s.update(i, (s[i].0, c))) == spec_max_locked(s),
    decreases s.len(),
{
    let s2 = s.update(i, (s[i].0, c));
    if i == s.len() - 1 {
        assert(s2.drop_last() =~= s.drop_last());
        assert(s2.last().0 == s.last().0);
    } else {
        assert(s2.drop_last() =~= s.drop_last().update(i, (s.drop_last()[i].0, c)));
        lemma_max_locked_update_count(s.drop_last(), i, c);
        assert(s2.last() == s.last());
    }
}

/// Removing a lock-table entry never raises the largest locked amount.
proof fn lemma_max_locked_remove(s: Seq<(u128, u64)>, i: int)
    requires
        0 <= i < s.len(),
    ensures
        spec_max_locked(s.remove(i)) <= spec_max_locked(s),
    decreases s.len(),
{
    let s2 = s.remove(i);
    if i == s.len() - 1 {
        assert(s2 =~= s.drop_last());
    } else {
        assert(s2.drop_last() =~= s.drop_last().remove(i));
        lemma_max_locked_remove(s.drop_last(), i);
        assert(s2.last() == s.last());
    }
}

/// Every entry is bounded by the largest locked amount.
proof fn lemma_max_locked_bounds(s: Seq<(u128, u64)>, j: int)
    requires
        0 <= j < s.len(),
    ensures
        s[j].0 <= spec_max_locked(s),
    decreases s.len(),
{
    if j < s.len() - 1 {
        assert(forall|i: int|
            0 <= i < s.drop_last().len() ==> #[trigger] s.drop_last()[i] == s[i]);
        lemma_max_locked_bounds(s.drop_last(), j);
    }
}

/// Powers of ten, for divisibility checks.
pub open spec fn spec_pow10(k: nat) -> int
    decreases k,
{
    if k == 0 {
        1
    } else {
        10 * spec_pow10((k - 1) as nat)
    }
}

/// Whether an amount is representable at the given divisibility: its
/// attos are a multiple of the smallest representable granule.
pub open spec fn spec_fungible_amount_ok(amount: Decimal, divisibility: u8) -> bool {
    divisibility <= 18 && (amount.attos as int) % spec_pow10((18 - divisibility) as nat) == 0
}

/// Checks that an amount is representable at the given divisibility.
pub fn check_fungible_amount(amount: &Decimal, divisibility: u8) -> (r: bool)
    requires
        divisibility <= 18,
    ensures
        r == spec_fungible_amount_ok(*amount, divisibility),
{
    let k: u8 = 18 - divisibility;
    let mut granule: u128 = 1;
    let mut i: u8 = 0;
    while i < k
        invariant
            i <= k,
            k <= 18,
            granule == spec_pow10(i as nat),
        decreases k - i,
    {
        proof {
            lemma_pow10_positive(i as nat);
            lemma_pow10_le(i as nat, 17);
            lemma_pow10_18();
            assert(spec_pow10(18) == 10 * spec_pow10(17));
        }
        granule = granule * 10;
        proof {
            assert(granule == spec_pow10((i + 1) as nat));
        }
        i = i + 1;
    }
    proof {
        lemma_pow10_positive(k as nat);
    }
    amount.attos % granule == 0
}

/// Powers of ten are positive.
proof fn lemma_pow10_positive(k: nat)
    ensures
        spec_pow10(k) >= 1,
    decreases k,
{
    if k > 0 {
        lemma_pow10_positive((k - 1) as nat);
    }
}

/// Powers of ten are monotone in the exponent.
proof fn lemma_pow10_le(a: nat, b: nat)
    requires
        a <= b,
    ensures
        spec_pow10(a) <= spec_pow10(b),
    decreases b,
{
    if a < b {
        lemma_pow10_le(a, (b - 1) as nat);
        lemma_pow10_positive((b - 1) as nat);
        assert(spec_pow10(b) == 10 * spec_pow10((b - 1) as nat));
    }
}

/// The eighteenth power of ten is the attos of one token.
proof fn lemma_pow10_18()
    ensures
        spec_pow10(18) == ATTOS_PER_UNIT,
{
    reveal_with_fuel(spec_pow10, 20);
}

/// The fungible vault blueprint: the vault state together with its
/// resource divisibility and its frozen flag.  Freezing a vault denies
/// withdrawals until it is unfrozen.
#[derive(Debug, Clone, PartialEq, Eq)]
pub struct FungibleVaultBlueprint {
    pub divisibility: u8,
    pub frozen: bool,
    pub vault: FungibleVault,
}

impl FungibleVaultBlueprint {
    pub fn new(divisibility: u8) -> (r: FungibleVaultBlueprint)
        requires
            divisibility <= 18,
        ensures
            r.divisibility == divisibility,
            !r.frozen,
            r.vault.liquid.amount.attos == 0,
            r.vault.locked.amounts@ =~= Seq::<(u128, u64)>::empty(),
    {
        FungibleVaultBlueprint { divisibility, frozen: false, vault: FungibleVault::new_empty() }
    }

    pub fn get_divisibility(&self) -> (r: u8)
        ensures
            r == self.divisibility,
    {
        self.divisibility
    }

    /// Withdraws `amount`: the amount must be representable at the
    /// vault's divisibility, and a frozen vault refuses withdrawals.
    pub fn take(&mut self, amount: Decimal) -> (r: Result<LiquidFungibleResource, VaultError>)
        requires
            old(self).divisibility <= 18,
        ensures
            old(self).frozen ==> r == Err::<LiquidFungibleResource, VaultError>(
                VaultError::VaultFrozen,
            ) && *final(self) == *old(self),
            !old(self).frozen && !spec_fungible_amount_ok(amount, old(self).divisibility) ==> r
                == Err::<LiquidFungibleResource, VaultError>(VaultError::InvalidAmount) && *final(self) == *old(self),
            !old(self).frozen && spec_fungible_amount_ok(amount, old(self).divisibility) ==> ({
                &&& (amount.attos <= old(self).vault.liquid.amount.attos ==> r == Ok::<
                    LiquidFungibleResource,
                    VaultError,
                >(LiquidFungibleResource { amount }) && final(self).vault.liquid.amount.attos
                    == old(self).vault.liquid.amount.attos - amount.attos)
                &&& (amount.attos > old(self).vault.liquid.amount.attos ==> r == Err::<
                    LiquidFungibleResource,
                    VaultError,
                >(VaultError::ResourceError(ResourceError::InsufficientBalance)) && *final(self)
                    == *old(self))
            }),
    {
        if self.frozen {
            return Err(VaultError::VaultFrozen);
        }
        if !check_fungible_amount(&amount, self.divisibility) {
            return Err(VaultError::InvalidAmount);
        }
        self.vault.take(amount)
    }

    /// Deposits a resource.
    pub fn put(&mut self, bucket: LiquidFungibleResource) -> (r: Result<(), VaultError>)
        ensures
            old(self).vault.liquid.amount.attos + bucket.amount.attos <= u128::MAX ==> r is Ok
                && final(self).vault.liquid.amount.attos == old(self).vault.liquid.amount.attos
                + bucket.amount.attos,
            old(self).vault.liquid.amount.attos + bucket.amount.attos > u128::MAX ==> r == Err::<
                (),
                VaultError,
            >(VaultError::ResourceError(ResourceError::Overflow)) && *final(self) == *old(self),
    {
        self.vault.put(bucket)
    }

    /// The total amount held: liquid plus effectively locked.
    pub fn get_amount(&self) -> (r: Decimal)
        requires
            self.vault.liquid.amount.attos + spec_max_locked(self.vault.locked.amounts@)
                <= u128::MAX,
        ensures
            r.attos == self.vault.liquid.amount.attos + spec_max_locked(
                self.vault.locked.amounts@,
            ),
    {
        let liquid = self.vault.liquid_amount();
        let locked = self.vault.locked_amount();
        Decimal { attos: liquid.attos + locked.attos }
    }

    /// Denies withdrawals.
    pub fn freeze(&mut self)
        ensures
            *final(self) == (FungibleVaultBlueprint { frozen: true, ..*old(self) }),
    {
        self.frozen = true;
    }

    /// Allows withdrawals again.
    pub fn unfreeze(&mut self)
        ensures
            *final(self) == (FungibleVaultBlueprint { frozen: false, ..*old(self) }),
    {
        self.frozen = false;
    }

    /// Locks `amount` for a proof.
    pub fn lock_amount(&mut self, amount: Decimal) -> (r: Result<Decimal, VaultError>)
        requires
            old(self).divisibility <= 18,
        ensures
            !spec_fungible_amount_ok(amount, old(self).divisibility) ==> r == Err::<
                Decimal,
                VaultError,
            >(VaultError::InvalidAmount) && *final(self) == *old(self),
            spec_fungible_amount_ok(amount, old(self).divisibility) ==> final(self).divisibility
                == old(self).divisibility && final(self).frozen == old(self).frozen,
    {
        if !check_fungible_amount(&amount, self.divisibility) {
            return Err(VaultError::InvalidAmount);
        }
        self.vault.lock_amount(amount)
    }

    /// Releases one proof's lock on `amount`, which must be locked.
    pub fn unlock_amount(&mut self, amount: Decimal) -> (r: Result<(), VaultError>)
        requires
            spec_lock_find(old(self).vault.locked.amounts@, amount.attos) is Some,
        ensures
            final(self).divisibility == old(self).divisibility,
            final(self).frozen == old(self).frozen,
    {
        self.vault.unlock_amount(amount)
    }
}

} // verus!
