//! The kernel-level error taxonomy.  Every failure is typed and
//! propagates up the call stack; nothing is retried inside the kernel.

use vstd::prelude::*;
use crate::call_frame::{
    CloseSubstateError, CreateFrameError, CreateNodeError, MovePartitionError, OpenSubstateError,
    PassMessageError, ReadSubstateError, TakeNodeError, WriteSubstateError,
};
use crate::fee_reserve::FeeReserveError;
use crate::track::TrackError;
use crate::types::NodeId;

verus! {

/// Failures of call-frame operations, by call site.
#[derive(Debug, Clone, Copy, PartialEq, Eq, Structural)]
pub enum CallFrameError {
    CreateNodeError(CreateNodeError),
    OpenSubstateError(OpenSubstateError),
    ReadSubstateError(ReadSubstateError),
    WriteSubstateError(WriteSubstateError),
    CloseSubstateError(CloseSubstateError),
    MovePartitionError(MovePartitionError),
    CreateFrameError(CreateFrameError),
    PassMessageError(PassMessageError),
    TakeNodeError(TakeNodeError),
}

/// The execution mode gating which kernel internals may run.
#[derive(Debug, Clone, Copy, PartialEq, Eq, Structural, Hash)]
pub enum ExecutionMode {
    Kernel,
    KernelModule,
    Client,
    Resolver,
    Deref,
    DropNode,
}

/// Kernel-level failures.
#[derive(Debug, Clone, Copy, PartialEq, Eq, Structural)]
pub enum KernelError {
    CallFrameError(CallFrameError),
    TrackError(TrackError),
    InvalidModeTransition(ExecutionMode, ExecutionMode),
    DropNodeFailure(NodeId),
    RENodeNotFound(NodeId),
    MaxCallDepthLimitReached,
    IdAllocationExhausted,
}

/// Failures raised by the auth hook.
#[derive(Debug, Clone, Copy, PartialEq, Eq, Structural)]
pub enum AuthError {
    Unauthorized(NodeId),
}

/// Failures raised by a kernel module hook.
#[derive(Debug, Clone, Copy, PartialEq, Eq, Structural)]
pub enum ModuleError {
    AuthError(AuthError),
    CostingError(FeeReserveError),
}

/// The top-level error of a transaction run: infrastructure failures are
/// always distinguishable from module rejections.
#[derive(Debug, Clone, Copy, PartialEq, Eq, Structural)]
pub enum RuntimeError {
    KernelError(KernelError),
    ModuleError(ModuleError),
}

} // verus!
