//! The kernel module mixer: the ordered set of cross-cutting hooks the
//! kernel consults at its lifecycle points.  Each hook may reject,
//! aborting the enclosing step; the set of modules is closed.

use vstd::prelude::*;
use crate::errors::{AuthError, ModuleError, RuntimeError};
use crate::fee_reserve::SystemLoanFeeReserve;
use crate::types::NodeId;
use crate::call_frame::node_list_contains;

verus! {

/// Execution cost units charged for pushing one call frame.
pub const INVOKE_COST_UNITS: u32 = 100;

/// The costing hook: consults the fee reserve on every invocation.
#[derive(Debug)]
pub struct CostingModule {
    pub fee_reserve: SystemLoanFeeReserve,
}

/// The auth hook: rejects invocations whose receiver is on the denied
/// list.
#[derive(Debug)]
pub struct AuthModule {
    pub denied: Vec<NodeId>,
}

/// The ordered collection of kernel modules.  Hooks run in a fixed
/// order: auth first, then costing.
#[derive(Debug)]
pub struct KernelModuleMixer {
    pub auth: Option<AuthModule>,
    pub costing: Option<CostingModule>,
}

impl KernelModuleMixer {
    /// Whether the configured fee reserve is well-formed; a mixer
    /// without costing is trivially so.
    pub open spec fn wf(self) -> bool {
        match self.costing {
            Some(c) => c.fee_reserve.wf(),
            None => true,
        }
    }

    /// Whether the auth hook rejects the receiver.
    pub open spec fn spec_auth_denies(self, receiver: Option<NodeId>) -> bool {
        match (self.auth, receiver) {
            (Some(a), Some(n)) => a.denied@.contains(n),
            _ => false,
        }
    }

    /// Whether the per-invocation charge goes through on the current
    /// metering state.
    pub open spec fn spec_costing_charge_ok(self) -> bool {
        match self.costing {
            Some(c) => c.fee_reserve.consume_execution_step(INVOKE_COST_UNITS).1 is None,
            None => true,
        }
    }

    /// A mixer with no modules: every hook passes.
    pub fn empty() -> (r: KernelModuleMixer)
        ensures
            r.wf(),
            r.auth is None,
            r.costing is None,
    {
        KernelModuleMixer { auth: None, costing: None }
    }

    /// Startup hook.
    pub fn on_init(&mut self) -> (r: Result<(), RuntimeError>)
        requires
            old(self).wf(),
        ensures
            final(self).wf(),
            r is Ok,
            *final(self) == *old(self),
    {
        Ok(())
    }

    /// Teardown hook.
    pub fn on_teardown(&mut self) -> (r: Result<(), RuntimeError>)
        requires
            old(self).wf(),
        ensures
            final(self).wf(),
            r is Ok,
            *final(self) == *old(self),
    {
        Ok(())
    }

    /// Pre-push hook: the auth module may reject the receiver; the
    /// costing module charges the invocation.  On a rejection the mixer
    /// is unchanged; a costing failure keeps the metering state the
    /// reserve reached.
    pub fn before_push_frame(&mut self, receiver: Option<NodeId>) -> (r: Result<
        (),
        RuntimeError,
    >)
        requires
            old(self).wf(),
        ensures
            final(self).wf(),
            old(self).spec_auth_denies(receiver) ==> (match receiver {
                Some(n) => r == Err::<(), RuntimeError>(RuntimeError::ModuleError(
                    ModuleError::AuthError(AuthError::Unauthorized(n)),
                )),
                None => false,
            }) && *final(self) == *old(self),
            !old(self).spec_auth_denies(receiver) ==> final(self).auth == old(self).auth && (match (
                old(self).costing,
                final(self).costing,
            ) {
                (Some(c0), Some(c1)) => ({
                    let (s2, e) = c0.fee_reserve.consume_execution_step(INVOKE_COST_UNITS);
                    &&& c1.fee_reserve == s2
                    &&& (match e {
                        Some(err) => r == Err::<(), RuntimeError>(RuntimeError::ModuleError(
                            ModuleError::CostingError(err),
                        )),
                        None => r is Ok,
                    })
                }),
                (None, None) => r is Ok,
                _ => false,
            }),
    {
        match (&self.auth, receiver) {
            (Some(a), Some(n)) => {
                if node_list_contains(&a.denied, n) {
                    return Err(
                        RuntimeError::ModuleError(ModuleError::AuthError(AuthError::Unauthorized(n))),
                    );
                }
            },
            _ => {},
        }
        match &mut self.costing {
            Some(c) => {
                match c.fee_reserve.consume_execution(INVOKE_COST_UNITS) {
                    Ok(_) => Ok(()),
                    Err(e) => Err(RuntimeError::ModuleError(ModuleError::CostingError(e))),
                }
            },
            None => Ok(()),
        }
    }

    /// Hook run as a child frame starts executing.
    pub fn on_execution_start(&mut self) -> (r: Result<(), RuntimeError>)
        requires
            old(self).wf(),
        ensures
            final(self).wf(),
            r is Ok,
            *final(self) == *old(self),
    {
        Ok(())
    }

    /// Hook run as a child frame finishes executing.
    pub fn on_execution_finish(&mut self) -> (r: Result<(), RuntimeError>)
        requires
            old(self).wf(),
        ensures
            final(self).wf(),
            r is Ok,
            *final(self) == *old(self),
    {
        Ok(())
    }

    /// Hook run after the frame is popped.
    pub fn after_pop_frame(&mut self) -> (r: Result<(), RuntimeError>)
        requires
            old(self).wf(),
        ensures
            final(self).wf(),
            r is Ok,
            *final(self) == *old(self),
    {
        Ok(())
    }
}

} // verus!
