//! Core addressing types: entity kinds, node identifiers, partitions,
//! substate keys and substate values.
//!
//! A node is addressed by a `NodeId`; a substate by the triple
//! `(NodeId, PartitionNumber, SubstateKey)`.  That triple is the complete
//! addressing scheme of the persisted state.

use vstd::prelude::*;

verus! {

/// The kind of entity a node identifier stands for.  The kind decides
/// whether the node is globally addressable, whether a missing global
/// lookup may be virtualized, and whether the kernel may drop the node
/// at frame teardown.
#[derive(Debug, Clone, Copy, PartialEq, Eq, Structural, Hash)]
pub enum EntityType {
    GlobalPackage,
    GlobalGenericComponent,
    GlobalAccount,
    GlobalIdentity,
    GlobalVirtualSecp256k1Account,
    GlobalVirtualEd25519Account,
    GlobalVirtualSecp256k1Identity,
    GlobalVirtualEd25519Identity,
    InternalGenericComponent,
    InternalKeyValueStore,
    InternalFungibleVault,
    InternalProof,
    InternalBucket,
    InternalWorktop,
    InternalAuthZone,
}

impl EntityType {
    /// Whether nodes of this kind live under a stable global address.
    pub open spec fn spec_is_global(self) -> bool {
        match self {
            EntityType::GlobalPackage => true,
            EntityType::GlobalGenericComponent => true,
            EntityType::GlobalAccount => true,
            EntityType::GlobalIdentity => true,
            EntityType::GlobalVirtualSecp256k1Account => true,
            EntityType::GlobalVirtualEd25519Account => true,
            EntityType::GlobalVirtualSecp256k1Identity => true,
            EntityType::GlobalVirtualEd25519Identity => true,
            _ => false,
        }
    }

    pub fn is_global(&self) -> (r: bool)
        ensures
            r == self.spec_is_global(),
    {
        match self {
            EntityType::GlobalPackage => true,
            EntityType::GlobalGenericComponent => true,
            EntityType::GlobalAccount => true,
            EntityType::GlobalIdentity => true,
            EntityType::GlobalVirtualSecp256k1Account => true,
            EntityType::GlobalVirtualEd25519Account => true,
            EntityType::GlobalVirtualSecp256k1Identity => true,
            EntityType::GlobalVirtualEd25519Identity => true,
            _ => false,
        }
    }

    /// Whether a missing global address of this kind is materialized
    /// lazily from the address alone.
    pub open spec fn spec_is_virtualizable(self) -> bool {
        match self {
            EntityType::GlobalVirtualSecp256k1Account => true,
            EntityType::GlobalVirtualEd25519Account => true,
            EntityType::GlobalVirtualSecp256k1Identity => true,
            EntityType::GlobalVirtualEd25519Identity => true,
            _ => false,
        }
    }

    pub fn is_virtualizable(&self) -> (r: bool)
        ensures
            r == self.spec_is_virtualizable(),
    {
        match self {
            EntityType::GlobalVirtualSecp256k1Account => true,
            EntityType::GlobalVirtualEd25519Account => true,
            EntityType::GlobalVirtualSecp256k1Identity => true,
            EntityType::GlobalVirtualEd25519Identity => true,
            _ => false,
        }
    }

    /// Whether the address stands for one of the virtual account kinds.
    pub open spec fn spec_is_virtual_account(self) -> bool {
        self == EntityType::GlobalVirtualSecp256k1Account
            || self == EntityType::GlobalVirtualEd25519Account
    }

    /// Whether a node of this kind may be discarded by the automatic
    /// frame-teardown drop.  A worktop is additionally required to be
    /// empty; the kernel checks that separately.
    pub open spec fn spec_is_droppable(self) -> bool {
        match self {
            EntityType::InternalProof => true,
            EntityType::InternalBucket => true,
            EntityType::InternalWorktop => true,
            EntityType::InternalAuthZone => true,
            _ => false,
        }
    }

    pub fn is_droppable(&self) -> (r: bool)
        ensures
            r == self.spec_is_droppable(),
    {
        match self {
            EntityType::InternalProof => true,
            EntityType::InternalBucket => true,
            EntityType::InternalWorktop => true,
            EntityType::InternalAuthZone => true,
            _ => false,
        }
    }
}

/// A node identifier: the entity kind together with a transaction-unique
/// index issued by the id allocator (or fixed at genesis for well-known
/// entities).  Immutable once assigned.
#[derive(Debug, Clone, Copy, PartialEq, Eq, Structural, Hash)]
pub struct NodeId {
    pub entity: EntityType,
    pub index: u64,
}

impl NodeId {
    pub fn new(entity: EntityType, index: u64) -> (r: NodeId)
        ensures
            r == (NodeId { entity, index }),
    {
        NodeId { entity, index }
    }

    pub fn entity_type(&self) -> (r: EntityType)
        ensures
            r == self.entity,
    {
        self.entity
    }

    pub open spec fn spec_is_global(self) -> bool {
        self.entity.spec_is_global()
    }

    pub fn is_global(&self) -> (r: bool)
        ensures
            r == self.spec_is_global(),
    {
        self.entity.is_global()
    }
}

/// The address of a global package entity.
#[derive(Debug, Clone, Copy, PartialEq, Eq, Structural, Hash)]
pub struct PackageAddress {
    pub node_id: NodeId,
}

impl PackageAddress {
    pub fn new(index: u64) -> (r: PackageAddress)
        ensures
            r.node_id == (NodeId { entity: EntityType::GlobalPackage, index }),
    {
        PackageAddress { node_id: NodeId { entity: EntityType::GlobalPackage, index } }
    }
}

/// The address of a global component entity.
#[derive(Debug, Clone, Copy, PartialEq, Eq, Structural, Hash)]
pub struct ComponentAddress {
    pub node_id: NodeId,
}

impl ComponentAddress {
    pub fn new(entity: EntityType, index: u64) -> (r: ComponentAddress)
        ensures
            r.node_id == (NodeId { entity, index }),
    {
        ComponentAddress { node_id: NodeId { entity, index } }
    }
}

/// The well-known address of the package that hosts the package blueprint
/// itself.
pub fn package_package() -> (r: PackageAddress)
    ensures
        r.node_id == (NodeId { entity: EntityType::GlobalPackage, index: 0 }),
{
    PackageAddress::new(0)
}

/// A partition groups related substates of one node.
#[derive(Debug, Clone, Copy, PartialEq, Eq, Structural, Hash)]
pub struct PartitionNumber(pub u8);

/// The key of a substate within a partition: a field index, a map key, or
/// a sorted-index key carrying its explicit sort prefix.
#[derive(Debug, Clone, Copy, PartialEq, Eq, Structural, Hash)]
pub enum SubstateKey {
    Field(u8),
    MapEntry(u64),
    SortedEntry(u16, u64),
}

/// The full address of one substate.
#[derive(Debug, Clone, Copy, PartialEq, Eq, Structural, Hash)]
pub struct SubstateId {
    pub node_id: NodeId,
    pub partition: PartitionNumber,
    pub key: SubstateKey,
}

impl SubstateId {
    pub fn new(node_id: NodeId, partition: PartitionNumber, key: SubstateKey) -> (r: SubstateId)
        ensures
            r == (SubstateId { node_id, partition, key }),
    {
        SubstateId { node_id, partition, key }
    }
}

/// Access requested when opening a substate: read-only locks are
/// shareable; mutable locks are exclusive.
#[derive(Debug, Clone, Copy, PartialEq, Eq, Structural)]
pub struct LockFlags {
    pub mutable: bool,
}

impl LockFlags {
    pub fn read_only() -> (r: LockFlags)
        ensures
            !r.mutable,
    {
        LockFlags { mutable: false }
    }

    pub fn mutable() -> (r: LockFlags)
        ensures
            r.mutable,
    {
        LockFlags { mutable: true }
    }

    pub fn empty() -> (r: LockFlags)
        ensures
            !r.mutable,
    {
        LockFlags { mutable: false }
    }
}

/// The mathematical image of a substate value: its payload bytes and the
/// nodes it owns and references.
#[verifier::ext_equal]
pub struct ValueView {
    pub bytes: Seq<u8>,
    pub owns: Seq<NodeId>,
    pub refs: Seq<NodeId>,
}

/// A substate value: an opaque payload together with the identifiers of
/// the nodes the encoded value owns and the nodes it merely references.
/// Mutation of state always flows through writing such a value back under
/// an open lock.
#[derive(Debug, Clone, PartialEq, Eq)]
pub struct SubstateValue {
    pub bytes: Vec<u8>,
    pub owns: Vec<NodeId>,
    pub refs: Vec<NodeId>,
}

impl View for SubstateValue {
    type V = ValueView;

    open spec fn view(&self) -> ValueView {
        ValueView { bytes: self.bytes@, owns: self.owns@, refs: self.refs@ }
    }
}

impl SubstateValue {
    /// The unit value: no payload, no owned nodes, no references.
    pub fn unit() -> (r: SubstateValue)
        ensures
            r.bytes@ =~= Seq::<u8>::empty(),
            r.owns@ =~= Seq::<NodeId>::empty(),
            r.refs@ =~= Seq::<NodeId>::empty(),
    {
        SubstateValue { bytes: Vec::new(), owns: Vec::new(), refs: Vec::new() }
    }

    /// A value whose payload is `bytes` and which owns and references
    /// nothing.
    pub fn from_bytes(bytes: Vec<u8>) -> (r: SubstateValue)
        ensures
            r.bytes@ == bytes@,
            r.owns@ =~= Seq::<NodeId>::empty(),
            r.refs@ =~= Seq::<NodeId>::empty(),
    {
        SubstateValue { bytes, owns: Vec::new(), refs: Vec::new() }
    }

    /// A value that owns exactly the node `id` and carries no payload.
    pub fn own(id: NodeId) -> (r: SubstateValue)
        ensures
            r.bytes@ =~= Seq::<u8>::empty(),
            r.owns@ =~= seq![id],
            r.refs@ =~= Seq::<NodeId>::empty(),
    {
        let mut owns: Vec<NodeId> = Vec::new();
        owns.push(id);
        SubstateValue { bytes: Vec::new(), owns, refs: Vec::new() }
    }

    /// An equal copy of the value.
    pub fn duplicate(&self) -> (r: SubstateValue)
        ensures
            r@ == self@,
    {
        let bytes = self.bytes.clone();
        let owns = self.owns.clone();
        let refs = self.refs.clone();
        proof {
            assert(bytes@ =~= self.bytes@);
            assert(owns@ =~= self.owns@);
            assert(refs@ =~= self.refs@);
        }
        SubstateValue { bytes, owns, refs }
    }

    /// The stored size of the value, as charged by the fee rules.
    pub fn size(&self) -> (r: usize)
        ensures
            r == self.bytes@.len(),
    {
        self.bytes.len()
    }
}

} // verus!
