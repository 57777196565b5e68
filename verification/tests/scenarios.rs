use radix_engine::call_frame::{
    CreateNodeError, ProcessSubstateError, TakeNodeError, WriteSubstateError,
};
use radix_engine::decimal::{Decimal, LiquidFungibleResource};
use radix_engine::errors::{CallFrameError, ExecutionMode, KernelError, RuntimeError};
use radix_engine::fee_reserve::SystemLoanFeeReserve;
use radix_engine::id_allocator::IdAllocator;
use radix_engine::errors::{AuthError, ModuleError};
use radix_engine::modules::AuthModule;
use radix_engine::kernel::{Executor, Kernel};
use radix_engine::modules::KernelModuleMixer;
use radix_engine::store::SubstateStore;
use radix_engine::track::{StoreCommit, Track, TrackError};
use radix_engine::types::{
    EntityType, LockFlags, NodeId, PartitionNumber, SubstateId, SubstateKey, SubstateValue,
};

fn test_kernel() -> Kernel {
    let id_allocator = IdAllocator::new(radix_engine::id_allocator::Hash(0));
    let database = SubstateStore::new();
    let track = Track::new(database);
    Kernel::new(id_allocator, track, KernelModuleMixer::empty())
}

fn dec(units: u64) -> Decimal {
    Decimal::from_units(units)
}

/// Re-parenting a node while the substate holding it is open fails with
/// a borrow conflict; after the lock closes, the same re-parent
/// succeeds.
#[test]
fn reparent_fails_while_substate_open_and_succeeds_after_close() {
    let mut kernel = test_kernel();

    // Create node B, then node A owning B in its only field.
    let node_b = kernel
        .kernel_allocate_node_id(EntityType::InternalKeyValueStore)
        .unwrap();
    kernel
        .kernel_create_node(
            node_b,
            vec![(PartitionNumber(0u8), SubstateKey::Field(0u8), SubstateValue::unit())],
        )
        .unwrap();
    let node_a = kernel
        .kernel_allocate_node_id(EntityType::InternalKeyValueStore)
        .unwrap();
    kernel
        .kernel_create_node(
            node_a,
            vec![(PartitionNumber(0u8), SubstateKey::Field(0u8), SubstateValue::own(node_b))],
        )
        .unwrap();

    // Open A's field mutably and detach B from the value: B stays
    // borrowed by the open substate.
    let handle = kernel
        .kernel_open_substate(
            node_a,
            PartitionNumber(0u8),
            SubstateKey::Field(0u8),
            LockFlags::mutable(),
        )
        .unwrap();
    kernel
        .kernel_write_substate(handle, SubstateValue::unit())
        .unwrap();

    // Re-parenting B under a new node C must fail while A's lock is
    // open.
    let node_c = kernel
        .kernel_allocate_node_id(EntityType::InternalKeyValueStore)
        .unwrap();
    let result = kernel.kernel_create_node(
        node_c,
        vec![(PartitionNumber(0u8), SubstateKey::Field(0u8), SubstateValue::own(node_b))],
    );
    assert!(matches!(
        result,
        Err(RuntimeError::KernelError(KernelError::CallFrameError(
            CallFrameError::CreateNodeError(CreateNodeError::ProcessSubstateError(
                ProcessSubstateError::TakeNodeError(TakeNodeError::SubstateBorrowed(..))
            ))
        )))
    ));

    // After closing A's lock the same re-parent succeeds.
    kernel.kernel_close_substate(handle).unwrap();
    kernel
        .kernel_create_node(
            node_c,
            vec![(PartitionNumber(0u8), SubstateKey::Field(0u8), SubstateValue::own(node_b))],
        )
        .unwrap();
}

/// A node passed down through a nested invocation and dropped by the
/// callee is consumed: no frame retains it and the heap no longer holds
/// it.
#[test]
fn node_dropped_by_nested_callee_is_consumed() {
    let mut kernel = test_kernel();
    let node_n = kernel
        .kernel_allocate_node_id(EntityType::InternalBucket)
        .unwrap();
    kernel
        .kernel_create_node(
            node_n,
            vec![(PartitionNumber(0u8), SubstateKey::Field(0u8), SubstateValue::unit())],
        )
        .unwrap();
    assert_eq!(kernel.current_frame.owned.len(), 1);

    let forward = Executor::Forward(Box::new(Executor::DropArgs));
    let out = kernel
        .kernel_invoke(&forward, SubstateValue::own(node_n), None)
        .unwrap();
    assert_eq!(out.owns.len(), 0);
    assert_eq!(kernel.current_frame.owned.len(), 0);
    assert_eq!(kernel.heap.nodes.len(), 0);
}

/// A node echoed back by the callee returns to the caller's owned set.
#[test]
fn node_echoed_by_callee_returns_to_caller() {
    let mut kernel = test_kernel();
    let node_n = kernel
        .kernel_allocate_node_id(EntityType::InternalBucket)
        .unwrap();
    kernel
        .kernel_create_node(
            node_n,
            vec![(PartitionNumber(0u8), SubstateKey::Field(0u8), SubstateValue::unit())],
        )
        .unwrap();

    let out = kernel
        .kernel_invoke(&Executor::Echo, SubstateValue::own(node_n), None)
        .unwrap();
    assert_eq!(out.owns, vec![node_n]);
    assert_eq!(kernel.current_frame.owned.len(), 1);
    assert_eq!(kernel.current_frame.owned[0], node_n);
}

/// Fee reserve lifecycle: consume execution below the loan threshold,
/// lock a fee, repay, and finalize with the loan fully repaid.
#[test]
fn fee_reserve_consume_lock_and_repay() {
    let mut fee_reserve = SystemLoanFeeReserve::new(dec(1), dec(1), dec(0), 0, 100, 5, false);
    fee_reserve.consume_execution(2).unwrap();
    assert_eq!(fee_reserve.fee_balance(), dec(3));
    assert_eq!(fee_reserve.fully_repaid(), false);
    fee_reserve
        .lock_fee(NodeId::new(EntityType::InternalFungibleVault, 0), LiquidFungibleResource::new(dec(3)), false)
        .unwrap();
    fee_reserve.repay_all().unwrap();
    assert_eq!(fee_reserve.fully_repaid(), true);
    let summary = fee_reserve.finalize();
    assert_eq!(summary.loan_fully_repaid(), true);
    assert_eq!(summary.total_execution_cost_units_consumed, 2);
}

/// Two mutable lock acquisitions on the same substate without a release
/// fail, and a read lock and a mutable lock cannot coexist.
#[test]
fn mutable_locks_are_exclusive() {
    let mut store = SubstateStore::new();
    let node = NodeId::new(EntityType::GlobalGenericComponent, 7);
    let sid = SubstateId::new(node, PartitionNumber(0u8), SubstateKey::Field(0u8));
    store.set_substate(sid, SubstateValue::from_bytes(vec![1u8, 2u8]));
    let mut track = Track::new(store);

    // Two mutable acquisitions conflict.
    track.acquire_lock(sid, true).unwrap();
    assert_eq!(track.acquire_lock(sid, true), Err(TrackError::SubstateLocked(sid)));
    assert_eq!(track.acquire_lock(sid, false), Err(TrackError::SubstateLocked(sid)));
    track.release_lock(sid, false).unwrap();

    // Read locks share; a mutable lock cannot join them.
    track.acquire_lock(sid, false).unwrap();
    track.acquire_lock(sid, false).unwrap();
    assert_eq!(track.acquire_lock(sid, true), Err(TrackError::SubstateLocked(sid)));
    track.release_lock(sid, false).unwrap();
    track.release_lock(sid, false).unwrap();
    track.acquire_lock(sid, true).unwrap();
}

/// A heap substate cannot be opened twice within a frame.
#[test]
fn heap_substate_opened_at_most_once() {
    let mut kernel = test_kernel();
    let node = kernel
        .kernel_allocate_node_id(EntityType::InternalKeyValueStore)
        .unwrap();
    kernel
        .kernel_create_node(
            node,
            vec![(PartitionNumber(0u8), SubstateKey::Field(0u8), SubstateValue::unit())],
        )
        .unwrap();
    kernel
        .kernel_open_substate(
            node,
            PartitionNumber(0u8),
            SubstateKey::Field(0u8),
            LockFlags::mutable(),
        )
        .unwrap();
    let second = kernel.kernel_open_substate(
        node,
        PartitionNumber(0u8),
        SubstateKey::Field(0u8),
        LockFlags::read_only(),
    );
    assert!(second.is_err());
}

/// Track finalize reports each update against the pre-transaction value:
/// two sequential transactions writing the same key each see the
/// snapshot their own transaction started from.
#[test]
fn sequential_transactions_report_updates_against_own_snapshot() {
    let mut store = SubstateStore::new();
    let node = NodeId::new(EntityType::GlobalGenericComponent, 1);
    let sid = SubstateId::new(node, PartitionNumber(0u8), SubstateKey::Field(0u8));
    store.set_substate(sid, SubstateValue::from_bytes(vec![1u8, 2u8, 3u8]));

    // First transaction: overwrite with five bytes.
    let mut track1 = Track::new(store);
    track1.set_substate(sid, SubstateValue::from_bytes(vec![9u8, 9u8, 9u8, 9u8, 9u8]));
    let (store_after_1, commits1) = track1.finalize();
    assert_eq!(
        commits1,
        vec![StoreCommit::Update { substate_id: sid, size: 5, old_size: 3 }]
    );

    // Second transaction: overwrite with one byte; its update is sized
    // against the value the first transaction committed, not the
    // original one.
    let mut track2 = Track::new(store_after_1);
    track2.set_substate(sid, SubstateValue::from_bytes(vec![7u8]));
    let (_, commits2) = track2.finalize();
    assert_eq!(
        commits2,
        vec![StoreCommit::Update { substate_id: sid, size: 1, old_size: 5 }]
    );
}

/// Virtualizing the same global address in two independent kernels
/// produces bit-identical substates.
#[test]
fn virtualization_is_deterministic_across_kernels() {
    let address = NodeId::new(EntityType::GlobalVirtualSecp256k1Account, 0x1122334455667788);
    let sid = SubstateId::new(address, PartitionNumber(0u8), SubstateKey::Field(0u8));

    let mut kernel1 = test_kernel();
    assert_eq!(kernel1.try_virtualize(address), Ok(true));
    let mut kernel2 = test_kernel();
    // Unrelated prior history in the second kernel.
    let other = kernel2
        .kernel_allocate_node_id(EntityType::InternalKeyValueStore)
        .unwrap();
    kernel2
        .kernel_create_node(
            other,
            vec![(PartitionNumber(0u8), SubstateKey::Field(0u8), SubstateValue::unit())],
        )
        .unwrap();
    assert_eq!(kernel2.try_virtualize(address), Ok(true));

    let v1 = kernel1.track.get_substate(sid).unwrap().clone();
    let v2 = kernel2.track.get_substate(sid).unwrap().clone();
    assert_eq!(v1, v2);
    assert_eq!(v1.bytes, vec![0x88u8, 0x77, 0x66, 0x55, 0x44, 0x33, 0x22, 0x11]);

    // A non-virtualizable address is left alone.
    let plain = NodeId::new(EntityType::GlobalGenericComponent, 5);
    let mut kernel3 = test_kernel();
    assert_eq!(kernel3.try_virtualize(plain), Ok(false));
}

/// An invocation whose receiver is on the auth deny list is rejected by
/// the pre-push hook.
#[test]
fn denied_receiver_is_rejected_by_auth_hook() {
    let denied = NodeId::new(EntityType::GlobalGenericComponent, 9);
    let id_allocator = IdAllocator::new(radix_engine::id_allocator::Hash(0));
    let track = Track::new(SubstateStore::new());
    let module = KernelModuleMixer { auth: Some(AuthModule { denied: vec![denied] }), costing: None };
    let mut kernel = Kernel::new(id_allocator, track, module);

    let result = kernel.kernel_invoke(&Executor::Echo, SubstateValue::unit(), Some(denied));
    assert_eq!(
        result,
        Err(RuntimeError::ModuleError(ModuleError::AuthError(AuthError::Unauthorized(denied))))
    );
}

/// A delete is reported against the snapshot and removes the substate
/// from the committed store; a delete of an absent substate records
/// nothing.
#[test]
fn deletes_are_reported_and_uncosted() {
    let mut store = SubstateStore::new();
    let node = NodeId::new(EntityType::GlobalGenericComponent, 2);
    let sid = SubstateId::new(node, PartitionNumber(0u8), SubstateKey::Field(0u8));
    let absent = SubstateId::new(node, PartitionNumber(0u8), SubstateKey::Field(1u8));
    store.set_substate(sid, SubstateValue::from_bytes(vec![1u8, 2u8]));

    let mut track = Track::new(store);
    track.remove_substate(sid);
    track.remove_substate(absent);
    assert!(track.get_substate(sid).is_none());
    let (store_after, commits) = track.finalize();
    assert_eq!(commits, vec![StoreCommit::Delete { substate_id: sid }]);
    assert!(store_after.get_substate(sid).is_none());

    // A delete is free under the fee rules.
    assert_eq!(StoreCommit::Delete { substate_id: sid }.growth(), 0);
}

/// An illegal execution-mode change is an internal protocol error.
#[test]
fn invalid_mode_transition_is_rejected() {
    assert!(Kernel::verify_valid_mode_transition(
        &ExecutionMode::Kernel,
        &ExecutionMode::Client
    )
    .is_ok());
    assert!(Kernel::verify_valid_mode_transition(
        &ExecutionMode::Resolver,
        &ExecutionMode::Deref
    )
    .is_ok());
    assert_eq!(
        Kernel::verify_valid_mode_transition(&ExecutionMode::Client, &ExecutionMode::Deref),
        Err(RuntimeError::KernelError(KernelError::InvalidModeTransition(
            ExecutionMode::Client,
            ExecutionMode::Deref
        )))
    );
}

/// Scanning a partition sees the transaction's own writes over the
/// snapshot; draining removes everything it lists.
#[test]
fn scan_and_drain_reflect_overlay_over_snapshot() {
    let mut store = SubstateStore::new();
    let node = NodeId::new(EntityType::GlobalGenericComponent, 3);
    let sid_a = SubstateId::new(node, PartitionNumber(1u8), SubstateKey::MapEntry(10));
    let sid_b = SubstateId::new(node, PartitionNumber(1u8), SubstateKey::MapEntry(11));
    let sid_other = SubstateId::new(node, PartitionNumber(2u8), SubstateKey::MapEntry(12));
    store.set_substate(sid_a, SubstateValue::from_bytes(vec![1u8]));
    store.set_substate(sid_other, SubstateValue::from_bytes(vec![9u8]));

    let mut track = Track::new(store);
    // A write new to this transaction, and a delete of a snapshot entry.
    track.set_substate(sid_b, SubstateValue::from_bytes(vec![2u8]));
    let keys = track.scan_keys(node, PartitionNumber(1u8));
    assert_eq!(keys, vec![SubstateKey::MapEntry(10), SubstateKey::MapEntry(11)]);

    track.remove_substate(sid_a);
    let keys2 = track.scan_keys(node, PartitionNumber(1u8));
    assert_eq!(keys2, vec![SubstateKey::MapEntry(11)]);

    let drained = track.drain_substates(node, PartitionNumber(1u8));
    assert_eq!(drained.len(), 1);
    assert_eq!(drained[0].0, SubstateKey::MapEntry(11));
    assert_eq!(drained[0].1.bytes, vec![2u8]);
    assert!(track.scan_keys(node, PartitionNumber(1u8)).is_empty());
    // The untouched partition is unaffected.
    assert_eq!(track.scan_keys(node, PartitionNumber(2u8)), vec![SubstateKey::MapEntry(12)]);
}

/// A root invocation may reference the always-visible roots, and a
/// global reference backed by the store is granted on sight; the
/// references come down to the callee.
#[test]
fn root_invocation_seeds_reference_visibility() {
    let mut store = SubstateStore::new();
    let stored_global = NodeId::new(EntityType::GlobalGenericComponent, 88);
    store.set_substate(
        SubstateId::new(stored_global, PartitionNumber(0u8), SubstateKey::Field(0u8)),
        SubstateValue::from_bytes(vec![1u8]),
    );
    let id_allocator = IdAllocator::new(radix_engine::id_allocator::Hash(0));
    let mut kernel = Kernel::new(id_allocator, Track::new(store), KernelModuleMixer::empty());

    let well_known = Kernel::always_visible_roots()[0];
    let unknown = NodeId::new(EntityType::GlobalGenericComponent, 999);

    let mut args = SubstateValue::unit();
    args.refs = vec![well_known, stored_global];
    kernel.invoke_internal(None, &Executor::Echo, args).unwrap();

    // A reference to a global address nobody can resolve is rejected
    // with a node-not-found error before anything is invoked.
    let mut bad_args = SubstateValue::unit();
    bad_args.refs = vec![unknown];
    assert_eq!(
        kernel.invoke_internal(None, &Executor::Echo, bad_args),
        Err(RuntimeError::KernelError(KernelError::RENodeNotFound(unknown)))
    );
}

/// Reading through an open handle sees the current value, and a write
/// under a read-only handle is refused.
#[test]
fn read_write_through_handles() {
    let mut kernel = test_kernel();
    let node = kernel
        .kernel_allocate_node_id(EntityType::InternalKeyValueStore)
        .unwrap();
    kernel
        .kernel_create_node(
            node,
            vec![(
                PartitionNumber(0u8),
                SubstateKey::Field(0u8),
                SubstateValue::from_bytes(vec![5u8, 6u8]),
            )],
        )
        .unwrap();
    let handle = kernel
        .kernel_open_substate(
            node,
            PartitionNumber(0u8),
            SubstateKey::Field(0u8),
            LockFlags::read_only(),
        )
        .unwrap();
    assert_eq!(kernel.kernel_read_substate(handle).unwrap().bytes, vec![5u8, 6u8]);
    let write = kernel.kernel_write_substate(handle, SubstateValue::from_bytes(vec![7u8]));
    assert!(matches!(
        write,
        Err(RuntimeError::KernelError(KernelError::CallFrameError(
            CallFrameError::WriteSubstateError(WriteSubstateError::NoWritePermission)
        )))
    ));
    kernel.kernel_close_substate(handle).unwrap();

    let handle2 = kernel
        .kernel_open_substate(
            node,
            PartitionNumber(0u8),
            SubstateKey::Field(0u8),
            LockFlags::mutable(),
        )
        .unwrap();
    kernel
        .kernel_write_substate(handle2, SubstateValue::from_bytes(vec![7u8]))
        .unwrap();
    assert_eq!(kernel.kernel_read_substate(handle2).unwrap().bytes, vec![7u8]);
    kernel.kernel_close_substate(handle2).unwrap();
}

/// Sorted-index entries come back in explicit sort-key order, whatever
/// order they were written in.
#[test]
fn sorted_scan_orders_by_sort_key() {
    let mut store = SubstateStore::new();
    let node = NodeId::new(EntityType::GlobalGenericComponent, 4);
    let p = PartitionNumber(3u8);
    store.set_substate(
        SubstateId::new(node, p, SubstateKey::SortedEntry(2, 5)),
        SubstateValue::from_bytes(vec![25u8]),
    );
    store.set_substate(
        SubstateId::new(node, p, SubstateKey::Field(0u8)),
        SubstateValue::from_bytes(vec![99u8]),
    );
    let mut track = Track::new(store);
    track.set_substate(
        SubstateId::new(node, p, SubstateKey::SortedEntry(1, 9)),
        SubstateValue::from_bytes(vec![19u8]),
    );
    track.set_substate(
        SubstateId::new(node, p, SubstateKey::SortedEntry(2, 1)),
        SubstateValue::from_bytes(vec![21u8]),
    );

    let sorted = track.scan_sorted_substates(node, p);
    let keys: Vec<_> = sorted.iter().map(|e| e.0).collect();
    assert_eq!(
        keys,
        vec![
            SubstateKey::SortedEntry(1, 9),
            SubstateKey::SortedEntry(2, 1),
            SubstateKey::SortedEntry(2, 5),
        ]
    );
    assert_eq!(sorted[0].1.bytes, vec![19u8]);
}
