//! Deterministic entity-id allocation.
//!
//! Ids are issued from a transaction-seeded counter: the upper half of
//! every index is drawn from the transaction hash, the lower half is a
//! running counter, so two kernels processing the same transaction issue
//! identical id sequences and no id is issued twice.

use vstd::prelude::*;
use crate::types::{EntityType, NodeId};

verus! {

/// A transaction hash, the seed of id allocation.
#[derive(Debug, Clone, Copy, PartialEq, Eq, Structural)]
pub struct Hash(pub u64);

/// The index of the `counter`-th id issued under `seed`.
pub open spec fn spec_allocated_index(seed: Hash, counter: u32) -> int {
    (seed.0 as int % 0x1_0000_0000) * 0x1_0000_0000 + counter as int
}

/// The allocator: a seed and a counter.
#[derive(Debug, Clone, Copy, PartialEq, Eq, Structural)]
pub struct IdAllocator {
    pub seed: Hash,
    pub next: u32,
}

impl IdAllocator {
    pub fn new(seed: Hash) -> (r: IdAllocator)
        ensures
            r.seed == seed,
            r.next == 0,
    {
        IdAllocator { seed, next: 0 }
    }

    /// Issues the next id of the given kind.  Fails only when the
    /// counter space is exhausted.
    pub fn allocate_node_id(&mut self, entity: EntityType) -> (r: Option<NodeId>)
        ensures
            old(self).next < u32::MAX ==> r == Some(NodeId {
                entity,
                index: spec_allocated_index(old(self).seed, old(self).next) as u64,
            }) && *final(self) == (IdAllocator {
                next: (old(self).next + 1) as u32,
                ..*old(self)
            }),
            old(self).next == u32::MAX ==> r is None && *final(self) == *old(self),
    {
        if self.next == u32::MAX {
            return None;
        }
        let upper: u64 = self.seed.0 % 0x1_0000_0000;
        let index: u64 = upper * 0x1_0000_0000 + (self.next as u64);
        let id = NodeId { entity, index };
        self.next = self.next + 1;
        Some(id)
    }
}

/// Two ids issued under the same seed at different counter positions are
/// distinct: allocation never reuses an index.
pub proof fn lemma_allocation_unique(seed: Hash, c1: u32, c2: u32)
    ensures
        c1 != c2 ==> spec_allocated_index(seed, c1) != spec_allocated_index(seed, c2),
{
}


} // verus!
