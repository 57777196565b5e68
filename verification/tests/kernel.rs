use radix_engine::call_frame::{
    CloseSubstateError, CreateFrameError, CreateNodeError, MovePartitionError, PassMessageError,
    ProcessSubstateError, TakeNodeError, WriteSubstateError,
};
use radix_engine::errors::{CallFrameError, KernelError, RuntimeError};
use radix_engine::id_allocator::IdAllocator;
use radix_engine::kernel::{Executor, Kernel};
use radix_engine::modules::KernelModuleMixer;
use radix_engine::store::SubstateStore;
use radix_engine::track::Track;
use radix_engine::types::{
    EntityType, LockFlags, PartitionNumber, SubstateKey, SubstateValue,
};

enum MoveVariation {
    Create,
    CreateNodeFrom,
    Write,
    Invoke,
}

fn test_kernel() -> Kernel {
    let id_allocator = IdAllocator::new(radix_engine::id_allocator::Hash(0));
    let database = SubstateStore::new();
    let track = Track::new(database);
    Kernel::new(id_allocator, track, KernelModuleMixer::empty())
}

fn kernel_move_node_via_create_with_opened_substate(
    variation: MoveVariation,
) -> Result<(), RuntimeError> {
    let mut kernel = test_kernel();

    let child_id = {
        let child_id = kernel
            .kernel_allocate_node_id(EntityType::InternalKeyValueStore)
            .unwrap();
        let substates = vec![(PartitionNumber(0u8), SubstateKey::Field(0u8), SubstateValue::unit())];
        kernel.kernel_create_node(child_id, substates).unwrap();
        kernel
            .kernel_open_substate(
                child_id,
                PartitionNumber(0u8),
                SubstateKey::Field(0u8),
                LockFlags::read_only(),
            )
            .unwrap();
        child_id
    };

    match variation {
        MoveVariation::Create => {
            let node_id = kernel
                .kernel_allocate_node_id(EntityType::GlobalAccount)
                .unwrap();
            let substates = vec![(
                PartitionNumber(0u8),
                SubstateKey::Field(0u8),
                SubstateValue::own(child_id),
            )];
            kernel.kernel_create_node(node_id, substates)?;
        }
        MoveVariation::CreateNodeFrom => {
            let node_id = kernel
                .kernel_allocate_node_id(EntityType::GlobalAccount)
                .unwrap();
            kernel.kernel_create_node_from(
                node_id,
                vec![(PartitionNumber(0u8), (child_id, PartitionNumber(0u8)))],
            )?;
        }
        MoveVariation::Write => {
            let node_id = kernel
                .kernel_allocate_node_id(EntityType::GlobalAccount)
                .unwrap();
            let substates =
                vec![(PartitionNumber(0u8), SubstateKey::Field(0u8), SubstateValue::unit())];
            kernel.kernel_create_node(node_id, substates)?;
            let handle = kernel.kernel_open_substate(
                node_id,
                PartitionNumber(0u8),
                SubstateKey::Field(0u8),
                LockFlags::mutable(),
            )?;
            kernel.kernel_write_substate(handle, SubstateValue::own(child_id))?;
        }
        MoveVariation::Invoke => {
            kernel.kernel_invoke(&Executor::Echo, SubstateValue::own(child_id), None)?;
        }
    }

    Ok(())
}

#[test]
fn test_kernel_move_node_via_create_with_opened_substate() {
    let result = kernel_move_node_via_create_with_opened_substate(MoveVariation::Create);
    assert!(matches!(
        result,
        Err(RuntimeError::KernelError(KernelError::CallFrameError(
            CallFrameError::CreateNodeError(CreateNodeError::ProcessSubstateError(
                ProcessSubstateError::TakeNodeError(TakeNodeError::SubstateBorrowed(..))
            ))
        )))
    ));
}

#[test]
fn test_kernel_move_node_via_write_with_opened_substate() {
    let result = kernel_move_node_via_create_with_opened_substate(MoveVariation::Write);
    assert!(matches!(
        result,
        Err(RuntimeError::KernelError(KernelError::CallFrameError(
            CallFrameError::WriteSubstateError(WriteSubstateError::ProcessSubstateError(
                ProcessSubstateError::TakeNodeError(TakeNodeError::SubstateBorrowed(..))
            ))
        )))
    ));
}

#[test]
fn test_kernel_move_node_via_move_partition_with_opened_substate() {
    let result = kernel_move_node_via_create_with_opened_substate(MoveVariation::CreateNodeFrom);
    println!("{:?}", result);
    assert!(matches!(
        result,
        Err(RuntimeError::KernelError(KernelError::CallFrameError(
            CallFrameError::MovePartitionError(MovePartitionError::SubstateBorrowed(..))
        )))
    ));
}

#[test]
fn test_kernel_move_node_via_invoke_with_opened_substate() {
    let result = kernel_move_node_via_create_with_opened_substate(MoveVariation::Invoke);
    assert!(matches!(
        result,
        Err(RuntimeError::KernelError(KernelError::CallFrameError(
            CallFrameError::CreateFrameError(CreateFrameError::PassMessageError(
                PassMessageError::TakeNodeError(TakeNodeError::SubstateBorrowed(..))
            ))
        )))
    ));
}

#[test]
fn kernel_close_substate_should_fail_if_opened_child_exists() {
    // Arrange
    let mut kernel = test_kernel();
    let mut create_node = |kernel: &mut Kernel| {
        let id = kernel
            .kernel_allocate_node_id(EntityType::InternalKeyValueStore)
            .unwrap();
        let substates = vec![(PartitionNumber(0u8), SubstateKey::Field(0u8), SubstateValue::unit())];
        kernel.kernel_create_node(id, substates).unwrap();
        id
    };
    let node1 = create_node(&mut kernel);
    let node2 = create_node(&mut kernel);
    let handle1 = kernel
        .kernel_open_substate(
            node1,
            PartitionNumber(0u8),
            SubstateKey::Field(0u8),
            LockFlags::mutable(),
        )
        .unwrap();
    kernel
        .kernel_write_substate(handle1, SubstateValue::own(node2))
        .unwrap();
    kernel
        .kernel_open_substate(
            node2,
            PartitionNumber(0u8),
            SubstateKey::Field(0u8),
            LockFlags::mutable(),
        )
        .unwrap();

    // Act
    let result = kernel.kernel_close_substate(handle1);
    let error = result.expect_err("Should be an error");
    assert!(matches!(
        error,
        RuntimeError::KernelError(KernelError::CallFrameError(
            CallFrameError::CloseSubstateError(CloseSubstateError::SubstateBorrowed(..))
        ))
    ));
}
