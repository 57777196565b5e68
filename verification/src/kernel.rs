//! The kernel: orchestration of the call-frame stack over heap and
//! track, dispatch of invocations to executors, lifecycle hooks, and
//! lazy virtualization of well-known global addresses.
//!
//! The kernel owns the store snapshot, the id allocator and the module
//! mixer for the duration of one transaction; a driver constructs it,
//! runs invocations, and tears it down to collect the commit diff.

use vstd::prelude::*;
use crate::call_frame::{
    CallFrame, CloseSubstateError, MovePartitionError, OpenSubstateError, ReadSubstateError,
    TakeNodeError, VisibilityOrigin, WriteSubstateError,
};
use crate::errors::{CallFrameError, ExecutionMode, KernelError, RuntimeError};
use crate::heap::Heap;
use crate::id_allocator::IdAllocator;
use crate::modules::KernelModuleMixer;
use crate::track::{LockState, Track, TrackError};
use crate::types::{
    EntityType, LockFlags, NodeId, PartitionNumber, SubstateId, SubstateKey, SubstateValue,
    ValueView,
};

verus! {

/// Hard ceiling on the call depth, enforced structurally on invoke.
pub const MAX_CALL_DEPTH: usize = 512;

/// The unit of dispatchable code the kernel invokes: a closed set of
/// native behaviours.  `Echo` returns its arguments, moving their nodes
/// back up; `DropArgs` drops every node of its arguments; `Forward`
/// re-invokes the nested executor with the same arguments, modelling a
/// call that passes its payload onward.
#[derive(Debug)]
pub enum Executor {
    Echo,
    DropArgs,
    Forward(Box<Executor>),
}

/// The little-endian byte image of an index, `k` bytes long.
pub open spec fn le_bytes(x: int, k: nat) -> Seq<u8>
    decreases k,
{
    if k == 0 {
        Seq::empty()
    } else {
        seq![(x % 256) as u8] + le_bytes(x / 256, (k - 1) as nat)
    }
}

/// The deterministic owner-badge payload of a virtualized address: the
/// eight little-endian bytes of its index.  It depends on the address
/// alone, so independently executing kernels materialize identical
/// substates.
pub open spec fn spec_virtual_badge(node: NodeId) -> Seq<u8> {
    le_bytes(node.index as int, 8)
}

/// The eight little-endian bytes of `x`.
fn index_bytes(x: u64) -> (r: Vec<u8>)
    ensures
        r@ == le_bytes(x as int, 8),
{
    let mut out: Vec<u8> = Vec::new();
    let mut cur: u64 = x;
    let mut i: usize = 0;
    while i < 8
        invariant
            i <= 8,
            out@.len() == i,
            le_bytes(x as int, 8) =~= out@ + le_bytes(cur as int, (8 - i) as nat),
        decreases 8 - i,
    {
        let b: u8 = (cur % 256) as u8;
        let ghost prev = cur;
        let ghost prev_out = out@;
        out.push(b);
        cur = cur / 256;
        proof {
            assert(le_bytes(prev as int, (8 - i) as nat) =~= seq![b] + le_bytes(
                cur as int,
                (8 - (i + 1)) as nat,
            ));
            assert(prev_out + le_bytes(prev as int, (8 - i) as nat) =~= out@ + le_bytes(
                cur as int,
                (8 - (i + 1)) as nat,
            ));
        }
        i = i + 1;
    }
    proof {
        assert(le_bytes(cur as int, 0) =~= Seq::<u8>::empty());
        assert(out@ =~= out@ + le_bytes(cur as int, 0));
    }
    out
}

/// The kernel state for one transaction.
#[derive(Debug)]
pub struct Kernel {
    /// Current execution mode, gating which internals may be entered.
    pub execution_mode: ExecutionMode,
    /// The active call frame.
    pub current_frame: CallFrame,
    /// The stack of suspended caller frames.
    pub prev_frame_stack: Vec<CallFrame>,
    /// Transient node storage.
    pub heap: Heap,
    /// The transactional substate overlay.
    pub track: Track,
    /// Deterministic id issuance.
    pub id_allocator: IdAllocator,
    /// The module mixer consulted at lifecycle points.
    pub module: KernelModuleMixer,
}

impl Kernel {
    /// Every constituent is well-formed.
    pub open spec fn wf(self) -> bool {
        &&& self.current_frame.wf()
        &&& forall|i: int|
            0 <= i < self.prev_frame_stack@.len() ==> (#[trigger] self.prev_frame_stack@[i]).wf()
        &&& self.heap.wf()
        &&& self.track.wf()
        &&& self.module.wf()
    }

    /// Only the kernel mode may enter an arbitrary mode; a resolver may
    /// additionally dereference.  Everything else is an internal
    /// protocol violation.
    pub open spec fn spec_valid_mode_transition(cur: ExecutionMode, next: ExecutionMode) -> bool {
        cur == ExecutionMode::Kernel || (cur == ExecutionMode::Resolver && next
            == ExecutionMode::Deref)
    }

    pub fn verify_valid_mode_transition(cur: &ExecutionMode, next: &ExecutionMode) -> (r: Result<
        (),
        RuntimeError,
    >)
        ensures
            Kernel::spec_valid_mode_transition(*cur, *next) ==> r is Ok,
            !Kernel::spec_valid_mode_transition(*cur, *next) ==> r == Err::<(), RuntimeError>(
                RuntimeError::KernelError(KernelError::InvalidModeTransition(*cur, *next)),
            ),
    {
        match (cur, next) {
            (ExecutionMode::Kernel, _) => Ok(()),
            (ExecutionMode::Resolver, ExecutionMode::Deref) => Ok(()),
            _ => Err(
                RuntimeError::KernelError(KernelError::InvalidModeTransition(*cur, *next)),
            ),
        }
    }

    /// A fresh kernel over a store snapshot: kernel mode, an empty heap,
    /// a root frame.
    pub fn new(id_allocator: IdAllocator, track: Track, module: KernelModuleMixer) -> (r: Kernel)
        requires
            track.wf(),
            module.wf(),
        ensures
            r.wf(),
            r.execution_mode == ExecutionMode::Kernel,
            r.current_frame.depth == 0,
            r.current_frame.owned@ =~= Seq::<NodeId>::empty(),
            r.prev_frame_stack@ =~= Seq::<CallFrame>::empty(),
            r.track == track,
            r.id_allocator == id_allocator,
            r.module == module,
            forall|n: NodeId| !(#[trigger] r.heap.spec_has_node(n)),
            forall|id: SubstateId| #[trigger] r.heap.spec_get(id) is None,
    {
        Kernel {
            execution_mode: ExecutionMode::Kernel,
            current_frame: CallFrame::new_root(),
            prev_frame_stack: Vec::new(),
            heap: Heap::new(),
            track,
            id_allocator,
            module,
        }
    }

    /// Runs the startup hooks, in the module mode.
    pub fn initialize(&mut self) -> (r: Result<(), RuntimeError>)
        requires
            old(self).wf(),
        ensures
            final(self).wf(),
            old(self).execution_mode == ExecutionMode::Kernel ==> r is Ok && *final(self) == *old(self),
    {
        let saved = self.execution_mode;
        match Kernel::verify_valid_mode_transition(&saved, &ExecutionMode::KernelModule) {
            Ok(_) => {},
            Err(e) => {
                return Err(e);
            },
        }
        self.execution_mode = ExecutionMode::KernelModule;
        let hook = self.module.on_init();
        self.execution_mode = saved;
        match hook {
            Ok(_) => Ok(()),
            Err(e) => Err(e),
        }
    }

    /// Rewinds the frame stack, runs the teardown hooks, and hands the
    /// module mixer and the overlay back to the driver.
    pub fn teardown(self) -> (r: (KernelModuleMixer, Track, Option<RuntimeError>))
        requires
            self.wf(),
        ensures
            r.0.wf(),
            r.1.wf(),
            r.0 == self.module,
            r.1 == self.track,
            r.2 is None,
    {
        let Kernel { execution_mode: _, current_frame: _, prev_frame_stack, heap: _, track, id_allocator: _, module } = self;
        let mut module = module;
        let mut stack = prev_frame_stack;
        while stack.len() > 0
            invariant
                true,
            decreases stack@.len(),
        {
            stack.pop();
        }
        let hook = module.on_teardown();
        match hook {
            Ok(_) => (module, track, None),
            Err(e) => (module, track, Some(e)),
        }
    }

    /// Issues the next node id of the given kind.
    pub fn kernel_allocate_node_id(&mut self, entity: EntityType) -> (r: Result<
        NodeId,
        RuntimeError,
    >)
        requires
            old(self).wf(),
        ensures
            final(self).wf(),
            *final(self) == (Kernel { id_allocator: final(self).id_allocator, ..*old(self) }),
            old(self).id_allocator.next < u32::MAX ==> r is Ok && r->Ok_0.entity == entity,
            old(self).id_allocator.next == u32::MAX ==> r == Err::<NodeId, RuntimeError>(
                RuntimeError::KernelError(KernelError::IdAllocationExhausted),
            ),
    {
        match self.id_allocator.allocate_node_id(entity) {
            Some(id) => Ok(id),
            None => Err(RuntimeError::KernelError(KernelError::IdAllocationExhausted)),
        }
    }

    /// Registers a brand-new node owned by the current frame, nesting
    /// the nodes its values own; nesting a borrowed node fails.
    pub fn kernel_create_node(
        &mut self,
        node_id: NodeId,
        substates: Vec<(PartitionNumber, SubstateKey, SubstateValue)>,
    ) -> (r: Result<(), RuntimeError>)
        requires
            old(self).wf(),
            forall|i: int, j: int|
                0 <= i < j < substates@.len() ==> ((#[trigger] substates@[i]).0, substates@[i].1)
                    != ((#[trigger] substates@[j]).0, substates@[j].1),
        ensures
            final(self).wf(),
            *final(self) == (Kernel {
                current_frame: final(self).current_frame,
                heap: final(self).heap,
                ..*old(self)
            }),
            match old(self).current_frame.spec_create_node_error(
                old(self).heap,
                node_id,
                crate::call_frame::batch_owns(substates@),
            ) {
                Some(e) => r == Err::<(), RuntimeError>(RuntimeError::KernelError(
                    KernelError::CallFrameError(CallFrameError::CreateNodeError(e)),
                )) && final(self).current_frame == old(self).current_frame && final(self).heap
                    == old(self).heap,
None => r is Ok && final(self).heap.spec_has_node(node_id) && final(self).current_frame.spec_owns(node_id) && (forall|i: int|
                    0 <= i < substates@.len() ==> #[trigger] final(self).heap.spec_get(
                        SubstateId { node_id, partition: substates@[i].0, key: substates@[i].1 },
                    ) == Some(substates@[i].2)) && (forall|id: SubstateId|
                    id.node_id != node_id ==> #[trigger] final(self).heap.spec_get(id) == old(self).heap.spec_get(id)) && (forall|m: NodeId|
                    #[trigger] final(self).current_frame.spec_owns(m) == ((old(self).current_frame.spec_owns(m) && !crate::call_frame::batch_owns(
                        substates@,
                    ).contains(m)) || m == node_id)) && final(self).current_frame == (CallFrame {
                    owned: final(self).current_frame.owned,
                    ..old(self).current_frame
                }),
            },
    {
        match self.current_frame.create_node(&mut self.heap, node_id, substates) {
            Ok(_) => Ok(()),
            Err(e) => Err(
                RuntimeError::KernelError(
                    KernelError::CallFrameError(CallFrameError::CreateNodeError(e)),
                ),
            ),
        }
    }

    /// Creates a brand-new node whose listed partitions are re-parented
    /// from existing owned nodes; a borrowed source node fails the move.
    pub fn kernel_create_node_from(
        &mut self,
        node_id: NodeId,
        moves: Vec<(PartitionNumber, (NodeId, PartitionNumber))>,
    ) -> (r: Result<(), RuntimeError>)
        requires
            old(self).wf(),
            forall|i: int, j: int|
                0 <= i < j < moves@.len() ==> (#[trigger] moves@[i]).0 != (#[trigger] moves@[j]).0,
            forall|i: int, j: int|
                0 <= i < j < moves@.len() ==> (#[trigger] moves@[i]).1 != (#[trigger] moves@[j]).1,
        ensures
            final(self).wf(),
            *final(self) == (Kernel {
                current_frame: final(self).current_frame,
                heap: final(self).heap,
                ..*old(self)
            }),
            match old(self).current_frame.spec_create_node_from_error(
                old(self).heap,
                node_id,
                moves@,
            ) {
                Some(e) => r == Err::<(), RuntimeError>(RuntimeError::KernelError(
                    KernelError::CallFrameError(CallFrameError::MovePartitionError(e)),
                )) && final(self).current_frame == old(self).current_frame && final(self).heap
                    == old(self).heap,
None => r is Ok && final(self).heap.spec_has_node(node_id) && final(self).current_frame.spec_owns(node_id) && (forall|i: int, k2: SubstateKey|
                    0 <= i < moves@.len() ==> #[trigger] final(self).heap.spec_get(
                        SubstateId { node_id, partition: moves@[i].0, key: k2 },
                    ) == old(self).heap.spec_get(
                        SubstateId {
                            node_id: moves@[i].1.0,
                            partition: moves@[i].1.1,
                            key: k2,
                        },
                    )) && (forall|i: int, k2: SubstateKey|
                    0 <= i < moves@.len() ==> #[trigger] final(self).heap.spec_get(
                        SubstateId {
                            node_id: moves@[i].1.0,
                            partition: moves@[i].1.1,
                            key: k2,
                        },
                    ) is None) && (forall|m: NodeId|
                    m != node_id ==> #[trigger] final(self).current_frame.spec_owns(m) == old(self).current_frame.spec_owns(m)) && final(self).current_frame == (CallFrame {
                    owned: final(self).current_frame.owned,
                    ..old(self).current_frame
                }),
            },
    {
        match self.current_frame.create_node_from(&mut self.heap, node_id, moves) {
            Ok(_) => Ok(()),
            Err(e) => Err(
                RuntimeError::KernelError(
                    KernelError::CallFrameError(CallFrameError::MovePartitionError(e)),
                ),
            ),
        }
    }

    /// Writes the deterministic substates of a virtual account.
    fn create_virtual_account(&mut self, node_id: NodeId)
        requires
            old(self).wf(),
        ensures
            final(self).wf(),
            *final(self) == (Kernel {
                current_frame: final(self).current_frame,
                track: final(self).track,
                ..*old(self)
            }),
            final(self).track.spec_get_v(
                SubstateId {
                    node_id,
                    partition: PartitionNumber(0),
                    key: SubstateKey::Field(0),
                },
            ) == Some(ValueView {
                bytes: spec_virtual_badge(node_id),
                owns: Seq::empty(),
                refs: Seq::empty(),
            }),
            final(self).track.spec_get_v(
                SubstateId {
                    node_id,
                    partition: PartitionNumber(0),
                    key: SubstateKey::Field(1),
                },
            ) == Some(ValueView {
                bytes: Seq::empty(),
                owns: Seq::empty(),
                refs: Seq::empty(),
            }),
            forall|id2: SubstateId|
                id2 != (SubstateId {
                    node_id,
                    partition: PartitionNumber(0),
                    key: SubstateKey::Field(0),
                }) && id2 != (SubstateId {
                    node_id,
                    partition: PartitionNumber(0),
                    key: SubstateKey::Field(1),
                }) ==> #[trigger] final(self).track.spec_get_v(id2) == old(self).track.spec_get_v(
                    id2,
                ),
            forall|id2: SubstateId|
                #[trigger] final(self).track.spec_lock(id2) == old(self).track.spec_lock(id2),
            final(self).current_frame.spec_has_stable_ref(node_id),
            final(self).current_frame == (CallFrame {
                stable_refs: final(self).current_frame.stable_refs,
                ..old(self).current_frame
            }),
    {
        let badge = SubstateValue::from_bytes(index_bytes(node_id.index));
        let sid0 = SubstateId::new(node_id, PartitionNumber(0), SubstateKey::Field(0));
        let sid1 = SubstateId::new(node_id, PartitionNumber(0), SubstateKey::Field(1));
        self.track.set_substate(sid0, badge);
        self.track.set_substate(sid1, SubstateValue::unit());
        self.current_frame.add_stored_ref(node_id, VisibilityOrigin::Normal);
    }

    /// Writes the deterministic substate of a virtual identity.
    fn create_virtual_identity(&mut self, node_id: NodeId)
        requires
            old(self).wf(),
        ensures
            final(self).wf(),
            *final(self) == (Kernel {
                current_frame: final(self).current_frame,
                track: final(self).track,
                ..*old(self)
            }),
            final(self).track.spec_get_v(
                SubstateId {
                    node_id,
                    partition: PartitionNumber(0),
                    key: SubstateKey::Field(0),
                },
            ) == Some(ValueView {
                bytes: spec_virtual_badge(node_id),
                owns: Seq::empty(),
                refs: Seq::empty(),
            }),
            forall|id2: SubstateId|
                id2 != (SubstateId {
                    node_id,
                    partition: PartitionNumber(0),
                    key: SubstateKey::Field(0),
                }) ==> #[trigger] final(self).track.spec_get_v(id2) == old(self).track.spec_get_v(
                    id2,
                ),
            forall|id2: SubstateId|
                #[trigger] final(self).track.spec_lock(id2) == old(self).track.spec_lock(id2),
            final(self).current_frame.spec_has_stable_ref(node_id),
            final(self).current_frame == (CallFrame {
                stable_refs: final(self).current_frame.stable_refs,
                ..old(self).current_frame
            }),
    {
        let badge = SubstateValue::from_bytes(index_bytes(node_id.index));
        let sid0 = SubstateId::new(node_id, PartitionNumber(0), SubstateKey::Field(0));
        self.track.set_substate(sid0, badge);
        self.current_frame.add_stored_ref(node_id, VisibilityOrigin::Normal);
    }

    /// Lazily materializes a virtualizable global address: the substates
    /// are a pure function of the address, so every kernel produces the
    /// same bytes.  Yields whether the node was virtualized.
    pub fn try_virtualize(&mut self, node_id: NodeId) -> (r: Result<bool, RuntimeError>)
        requires
            old(self).wf(),
        ensures
            final(self).wf(),
            !node_id.entity.spec_is_virtualizable() ==> r == Ok::<bool, RuntimeError>(false)
                && *final(self) == *old(self),
            node_id.entity.spec_is_virtualizable() ==> ({
                &&& r == Ok::<bool, RuntimeError>(true)
                &&& *final(self) == (Kernel {
                    current_frame: final(self).current_frame,
                    track: final(self).track,
                    ..*old(self)
                })
                &&& final(self).track.spec_get_v(
                    SubstateId {
                        node_id,
                        partition: PartitionNumber(0),
                        key: SubstateKey::Field(0),
                    },
                ) == Some(ValueView {
                    bytes: spec_virtual_badge(node_id),
                    owns: Seq::empty(),
                    refs: Seq::empty(),
                })
                &&& (node_id.entity.spec_is_virtual_account() ==> final(self).track.spec_get_v(
                    SubstateId {
                        node_id,
                        partition: PartitionNumber(0),
                        key: SubstateKey::Field(1),
                    },
                ) == Some(ValueView {
                    bytes: Seq::empty(),
                    owns: Seq::empty(),
                    refs: Seq::empty(),
                }))
                &&& (forall|id2: SubstateId|
                    id2.node_id != node_id ==> #[trigger] final(self).track.spec_get_v(id2)
                        == old(self).track.spec_get_v(id2))
                &&& (forall|id2: SubstateId|
                    #[trigger] final(self).track.spec_lock(id2) == old(self).track.spec_lock(id2))
                &&& final(self).current_frame.spec_has_stable_ref(node_id)
                &&& final(self).current_frame == (CallFrame {
                    stable_refs: final(self).current_frame.stable_refs,
                    ..old(self).current_frame
                })
            }),
    {
        if !node_id.entity_type().is_virtualizable() {
            return Ok(false);
        }
        let is_account = match node_id.entity_type() {
            EntityType::GlobalVirtualSecp256k1Account => true,
            EntityType::GlobalVirtualEd25519Account => true,
            _ => false,
        };
        if is_account {
            self.create_virtual_account(node_id);
        } else {
            self.create_virtual_identity(node_id);
        }
        Ok(true)
    }

    /// Opens a substate of a visible node, virtualizing the backing node
    /// first when a missing global address admits it.
    pub fn kernel_open_substate(
        &mut self,
        node: NodeId,
        partition: PartitionNumber,
        key: SubstateKey,
        flags: LockFlags,
    ) -> (r: Result<u32, RuntimeError>)
        requires
            old(self).wf(),
        ensures
            final(self).wf(),
            *final(self) == (Kernel {
                current_frame: final(self).current_frame,
                track: final(self).track,
                ..*old(self)
            }),
            final(self).current_frame.depth == old(self).current_frame.depth,
            final(self).current_frame.owned == old(self).current_frame.owned,
            r matches Ok(h) ==> ({
                let sid = SubstateId { node_id: node, partition, key };
                let o = final(self).current_frame.opened@.last();
                &&& final(self).current_frame.spec_opened_contains(h)
                &&& final(self).current_frame.opened@.len() == old(self).current_frame.opened@.len() + 1
                &&& (forall|j: int|
                    0 <= j < old(self).current_frame.opened@.len() ==> #[trigger] final(self).current_frame.opened@[j] == old(self).current_frame.opened@[j])
                &&& o.handle == h
                &&& o.substate_id == sid
                &&& o.flags == flags
                &&& !o.written
                &&& o.detached_children@ =~= Seq::<NodeId>::empty()
                &&& o.in_store == !old(self).heap.spec_has_node(node)
                &&& final(self).current_frame.owned == old(self).current_frame.owned
                &&& final(self).current_frame.depth == old(self).current_frame.depth
                &&& (o.in_store ==> final(self).track.spec_lock(sid) != LockState::Free && (
                forall|id2: SubstateId|
                    id2 != sid ==> #[trigger] final(self).track.spec_lock(id2) == old(self).track.spec_lock(id2)))
                &&& (!o.in_store ==> forall|id2: SubstateId|
                    #[trigger] final(self).track.spec_lock(id2) == old(self).track.spec_lock(id2))
            }),
            ({
                let sid = SubstateId { node_id: node, partition, key };
                match old(self).current_frame.spec_open_error(
                    old(self).heap,
                    old(self).track,
                    sid,
                    flags,
                ) {
                    None => r == Ok::<u32, RuntimeError>(old(self).current_frame.next_handle),
                    Some(e) => (e matches OpenSubstateError::TrackError(TrackError::NotFound(_))
                        && node.entity.spec_is_virtualizable()) || (r == Err::<u32, RuntimeError>(
                        RuntimeError::KernelError(
                            KernelError::CallFrameError(CallFrameError::OpenSubstateError(e)),
                        ),
                    ) && final(self).current_frame == old(self).current_frame),
                }
            }),
    {
        let first = self.current_frame.open_substate(
            &self.heap,
            &mut self.track,
            node,
            partition,
            key,
            flags,
        );
        let e = match first {
            Ok(handle) => {
                proof {
                    self.current_frame.lemma_opened_index(self.current_frame.opened@.len() - 1);
                }
                return Ok(handle);
            },
            Err(e) => e,
        };
        let retry = match e {
            OpenSubstateError::TrackError(TrackError::NotFound(_)) => true,
            _ => false,
        };
        if retry {
            let virtualized = match self.try_virtualize(node) {
                Ok(b) => b,
                Err(err) => {
                    return Err(err);
                },
            };
            if virtualized {
                let second = self.current_frame.open_substate(
                    &self.heap,
                    &mut self.track,
                    node,
                    partition,
                    key,
                    flags,
                );
                match second {
                    Ok(handle) => {
                        proof {
                            self.current_frame.lemma_opened_index(
                                self.current_frame.opened@.len() - 1,
                            );
                        }
                        return Ok(handle);
                    },
                    Err(e2) => {
                        return Err(
                            RuntimeError::KernelError(
                                KernelError::CallFrameError(
                                    CallFrameError::OpenSubstateError(e2),
                                ),
                            ),
                        );
                    },
                }
            }
        }
        Err(
            RuntimeError::KernelError(
                KernelError::CallFrameError(CallFrameError::OpenSubstateError(e)),
            ),
        )
    }

    /// Reads the substate under an open handle.
    pub fn kernel_read_substate(&self, handle: u32) -> (r: Result<&SubstateValue, RuntimeError>)
        requires
            self.wf(),
        ensures
            match self.current_frame.spec_opened_contains(handle) {
                false => r == Err::<&SubstateValue, RuntimeError>(RuntimeError::KernelError(
                    KernelError::CallFrameError(
                        CallFrameError::ReadSubstateError(ReadSubstateError::HandleNotFound(handle)),
                    ),
                )),
                true => ({
                    let o = self.current_frame.opened@[self.current_frame.spec_opened_index(
                        handle,
                    )];
                    match r {
                        Ok(v) => (o.in_store ==> self.track.spec_get_v(o.substate_id) == Some(v@))
                            && (!o.in_store ==> self.heap.spec_get(o.substate_id) == Some(*v)),
                        Err(e) => e == RuntimeError::KernelError(
                            KernelError::CallFrameError(
                                CallFrameError::ReadSubstateError(
                                    ReadSubstateError::SubstateMissing(o.substate_id),
                                ),
                            ),
                        ) && (o.in_store ==> self.track.spec_get_v(o.substate_id) is None) && (
                        !o.in_store ==> self.heap.spec_get(o.substate_id) is None),
                    }
                }),
            },
    {
        match self.current_frame.read_substate(&self.heap, &self.track, handle) {
            Ok(v) => Ok(v),
            Err(e) => Err(
                RuntimeError::KernelError(
                    KernelError::CallFrameError(CallFrameError::ReadSubstateError(e)),
                ),
            ),
        }
    }

    /// Writes a new value under a mutable handle; nesting a borrowed
    /// node is rejected.
    pub fn kernel_write_substate(&mut self, handle: u32, value: SubstateValue) -> (r: Result<
        (),
        RuntimeError,
    >)
        requires
            old(self).wf(),
        ensures
            final(self).wf(),
            *final(self) == (Kernel {
                current_frame: final(self).current_frame,
                heap: final(self).heap,
                track: final(self).track,
                ..*old(self)
            }),
            match old(self).current_frame.spec_write_error(old(self).heap, handle, value) {
                Some(e) => r == Err::<(), RuntimeError>(RuntimeError::KernelError(
                    KernelError::CallFrameError(CallFrameError::WriteSubstateError(e)),
                )) && final(self).current_frame == old(self).current_frame && final(self).heap
                    == old(self).heap && final(self).track == old(self).track,
                None => ({
                    let idx = old(self).current_frame.spec_opened_index(handle);
                    let o = old(self).current_frame.opened@[idx];
                    let on = final(self).current_frame.opened@[idx];
                    &&& r is Ok
                    &&& final(self).current_frame.opened@ == old(self).current_frame.opened@.update(idx, on)
                    &&& on.handle == o.handle
                    &&& on.substate_id == o.substate_id
                    &&& on.flags == o.flags
                    &&& on.in_store == o.in_store
                    &&& on.written
                    &&& on.owned_children@ == value.owns@
                    &&& on.detached_children@ == o.detached_children@
                        + o.owned_children@.filter(|n: NodeId| !value.owns@.contains(n))
                    &&& (forall|m: NodeId|
                        #[trigger] final(self).current_frame.spec_owns(m) == (old(self).current_frame.spec_owns(m) && !(value.owns@.contains(m)
                            && !o.owned_children@.contains(m))))
                    &&& final(self).current_frame.stable_refs == old(self).current_frame.stable_refs
                    &&& final(self).current_frame.depth == old(self).current_frame.depth
                    &&& final(self).current_frame.next_handle == old(self).current_frame.next_handle
                    &&& (o.in_store ==> final(self).heap == old(self).heap && final(self).track.spec_get_v(o.substate_id) == Some(value@) && (forall|id2: SubstateId|
                        id2 != o.substate_id ==> #[trigger] final(self).track.spec_get_v(id2)
                            == old(self).track.spec_get_v(id2)) && (forall|id2: SubstateId|
                        #[trigger] final(self).track.spec_lock(id2) == old(self).track.spec_lock(
                            id2,
                        )))
                    &&& (!o.in_store ==> final(self).track == old(self).track && final(self).heap.spec_get(o.substate_id) == Some(value) && (forall|id2: SubstateId|
                        id2 != o.substate_id ==> #[trigger] final(self).heap.spec_get(id2) == old(self).heap.spec_get(id2)) && (forall|n2: NodeId|
                        #[trigger] final(self).heap.spec_has_node(n2) == old(self).heap.spec_has_node(n2)))
                }),
            },
    {
        match self.current_frame.write_substate(&mut self.heap, &mut self.track, handle, value) {
            Ok(_) => Ok(()),
            Err(e) => Err(
                RuntimeError::KernelError(
                    KernelError::CallFrameError(CallFrameError::WriteSubstateError(e)),
                ),
            ),
        }
    }

    /// Closes an open substate; a borrowed child forbids closing.
    pub fn kernel_close_substate(&mut self, handle: u32) -> (r: Result<(), RuntimeError>)
        requires
            old(self).wf(),
        ensures
            final(self).wf(),
            *final(self) == (Kernel {
                current_frame: final(self).current_frame,
                track: final(self).track,
                ..*old(self)
            }),
            match old(self).current_frame.spec_close_error(old(self).track, handle) {
                Some(e) => r == Err::<(), RuntimeError>(RuntimeError::KernelError(
                    KernelError::CallFrameError(CallFrameError::CloseSubstateError(e)),
                )) && final(self).current_frame == old(self).current_frame && final(self).track
                    == old(self).track,
                None => ({
                    let idx = old(self).current_frame.spec_opened_index(handle);
                    let o = old(self).current_frame.opened@[idx];
                    &&& r is Ok
                    &&& final(self).current_frame.opened@ == old(self).current_frame.opened@.remove(idx)
                    &&& final(self).current_frame.owned@ == old(self).current_frame.owned@
                        + o.detached_children@
                    &&& final(self).current_frame.stable_refs == old(self).current_frame.stable_refs
                    &&& final(self).current_frame.depth == old(self).current_frame.depth
                    &&& final(self).current_frame.next_handle == old(self).current_frame.next_handle
                    &&& (forall|id2: SubstateId|
                        #[trigger] final(self).track.spec_get_v(id2) == old(self).track.spec_get_v(
                            id2,
                        ))
                    &&& (!o.in_store ==> final(self).track == old(self).track)
                    &&& (o.in_store ==> final(self).track.spec_lock(o.substate_id) == (match old(self).track.spec_lock(o.substate_id) {
                        LockState::Read(n) => if n > 1 {
                            LockState::Read((n - 1) as u32)
                        } else {
                            LockState::Free
                        },
                        _ => LockState::Free,
                    }) && (forall|id2: SubstateId|
                        id2 != o.substate_id ==> #[trigger] final(self).track.spec_lock(id2)
                            == old(self).track.spec_lock(id2)))
                }),
            },
    {
        match self.current_frame.close_substate(&mut self.track, handle) {
            Ok(_) => Ok(()),
            Err(e) => Err(
                RuntimeError::KernelError(
                    KernelError::CallFrameError(CallFrameError::CloseSubstateError(e)),
                ),
            ),
        }
    }

    /// The error a `kernel_drop_node` call yields, if any: only
    /// discardable node kinds may be dropped, a worktop must be empty,
    /// and the same borrow rule applies as for every other move.
    pub open spec fn spec_drop_node_error(self, node: NodeId) -> Option<RuntimeError> {
        if !node.entity.spec_is_droppable() {
            Some(RuntimeError::KernelError(KernelError::DropNodeFailure(node)))
        } else if node.entity == EntityType::InternalWorktop && (match self.heap.spec_get(
            SubstateId { node_id: node, partition: PartitionNumber(0), key: SubstateKey::Field(0) },
        ) {
            Some(v) => v.owns@.len() > 0,
            None => false,
        }) {
            Some(RuntimeError::KernelError(KernelError::DropNodeFailure(node)))
        } else {
            match self.current_frame.spec_take_error(node) {
                Some(e) => Some(
                    RuntimeError::KernelError(
                        KernelError::CallFrameError(CallFrameError::TakeNodeError(e)),
                    ),
                ),
                None => None,
            }
        }
    }

    /// Drops a node owned by the current frame, recursively discarding
    /// the nodes nested in its substates.  Only discardable node kinds
    /// may be dropped, and a worktop must be empty.
    pub fn kernel_drop_node(&mut self, node: NodeId) -> (r: Result<(), RuntimeError>)
        requires
            old(self).wf(),
        ensures
            final(self).wf(),
            *final(self) == (Kernel {
                current_frame: final(self).current_frame,
                heap: final(self).heap,
                ..*old(self)
            }),
            match old(self).spec_drop_node_error(node) {
                Some(e) => r == Err::<(), RuntimeError>(e) && final(self).current_frame == old(self).current_frame && final(self).heap == old(self).heap,
                None => r is Ok && !final(self).heap.spec_has_node(node) && !final(self).current_frame.spec_owns(node) && final(self).current_frame.owned@ == old(self).current_frame.owned@.remove_value(node) && final(self).current_frame.owned@.len() == old(self).current_frame.owned@.len() - 1,
            },
            final(self).current_frame == (CallFrame {
                owned: final(self).current_frame.owned,
                ..old(self).current_frame
            }),
            forall|n2: NodeId|
                #[trigger] final(self).heap.spec_has_node(n2) ==> old(self).heap.spec_has_node(n2),
            final(self).heap.nodes@.len() <= old(self).heap.nodes@.len(),
            forall|id: SubstateId|
                #[trigger] final(self).heap.spec_has_node(id.node_id) ==> final(self).heap.spec_get(
                    id,
                ) == old(self).heap.spec_get(id),
            forall|n2: NodeId|
                n2 != node && old(self).current_frame.spec_owns(n2) && old(self).heap.spec_has_node(n2) ==> #[trigger] final(self).heap.spec_has_node(n2),
        decreases self.heap.nodes@.len(), 1int,
    {
        if !node.entity_type().is_droppable() {
            return Err(RuntimeError::KernelError(KernelError::DropNodeFailure(node)));
        }
        if matches!(node.entity_type(), EntityType::InternalWorktop) {
            let sid = SubstateId::new(node, PartitionNumber(0), SubstateKey::Field(0));
            match self.heap.get_substate(sid) {
                Some(v) => {
                    if v.owns.len() > 0 {
                        return Err(RuntimeError::KernelError(KernelError::DropNodeFailure(node)));
                    }
                },
                None => {},
            }
        }
        let removed = match self.current_frame.remove_node(&mut self.heap, node) {
            Ok(entries) => entries,
            Err(e) => {
                return Err(
                    RuntimeError::KernelError(
                        KernelError::CallFrameError(CallFrameError::TakeNodeError(e)),
                    ),
                );
            },
        };
        self.drop_nested_entries(removed)
    }

    /// Discards the nodes nested in the given removed substates,
    /// recursively.
    fn drop_nested_entries(&mut self, entries: Vec<(SubstateId, SubstateValue)>) -> (r: Result<
        (),
        RuntimeError,
    >)
        requires
            old(self).wf(),
        ensures
            final(self).wf(),
            *final(self) == (Kernel { heap: final(self).heap, ..*old(self) }),
            r is Ok,
            forall|n2: NodeId|
                #[trigger] final(self).heap.spec_has_node(n2) ==> old(self).heap.spec_has_node(n2),
            final(self).heap.nodes@.len() <= old(self).heap.nodes@.len(),
            forall|id: SubstateId|
                #[trigger] final(self).heap.spec_has_node(id.node_id) ==> final(self).heap.spec_get(
                    id,
                ) == old(self).heap.spec_get(id),
            forall|n2: NodeId|
                old(self).current_frame.spec_owns(n2) && old(self).heap.spec_has_node(n2)
                    ==> #[trigger] final(self).heap.spec_has_node(n2),
        decreases self.heap.nodes@.len(), 0int, entries@.len(),
    {
        let mut entries = entries;
        if entries.len() == 0 {
            return Ok(());
        }
        let (_, value) = entries.remove(0);
        let mut owns = value.owns;
        while owns.len() > 0
            invariant
                self.wf(),
                *self == (Kernel { heap: self.heap, ..*old(self) }),
                forall|n2: NodeId|
                    #[trigger] self.heap.spec_has_node(n2) ==> old(self).heap.spec_has_node(n2),
                self.heap.nodes@.len() <= old(self).heap.nodes@.len(),
                forall|id: SubstateId|
                    #[trigger] self.heap.spec_has_node(id.node_id) ==> self.heap.spec_get(id)
                        == old(self).heap.spec_get(id),
                forall|n2: NodeId|
                    old(self).current_frame.spec_owns(n2) && old(self).heap.spec_has_node(n2)
                        ==> #[trigger] self.heap.spec_has_node(n2),
            decreases owns@.len(),
        {
            let child = owns.remove(0);
            // A node the frame still owns as a root is never discarded
            // as a nested child; under the ownership discipline the two
            // cannot coincide.
            let frame_owned = self.current_frame.owns(child);
            if !frame_owned && self.heap.contains_node(child) {
                let child_entries = self.heap.remove_node(child);
                proof {
                    assert(self.heap.nodes@.len() < old(self).heap.nodes@.len());
                }
                match self.drop_nested_entries(child_entries) {
                    Ok(_) => {},
                    Err(e) => {
                        return Err(e);
                    },
                }
            }
        }
        self.drop_nested_entries(entries)
    }

    /// The first node in the list whose drop fails, with its error, if
    /// any; the checks are stable across the preceding drops.
    pub open spec fn spec_first_drop_error(self, nodes: Seq<NodeId>, k: int) -> Option<
        RuntimeError,
    >
        decreases nodes.len() - k,
    {
        if k < 0 || k >= nodes.len() {
            None
        } else {
            match self.spec_drop_node_error(nodes[k]) {
                Some(e) => Some(e),
                None => self.spec_first_drop_error(nodes, k + 1),
            }
        }
    }

    /// Drops every node still owned by the current frame, in ownership
    /// order, as the cleanup net at frame teardown.  The cleanup is owed
    /// to succeed exactly when every owned node passes the drop checks;
    /// the first node that does not aborts the cleanup with that node's
    /// error.
    #[verifier::loop_isolation(false)]
    pub fn drop_nodes_in_frame(&mut self) -> (r: Result<(), RuntimeError>)
        requires
            old(self).wf(),
        ensures
            final(self).wf(),
            *final(self) == (Kernel {
                current_frame: final(self).current_frame,
                heap: final(self).heap,
                ..*old(self)
            }),
            final(self).current_frame == (CallFrame {
                owned: final(self).current_frame.owned,
                ..old(self).current_frame
            }),
            forall|n2: NodeId|
                #[trigger] final(self).heap.spec_has_node(n2) ==> old(self).heap.spec_has_node(n2),
            match old(self).spec_first_drop_error(old(self).current_frame.owned@, 0) {
                None => r is Ok && final(self).current_frame.owned@.len() == 0,
                Some(e) => r == Err::<(), RuntimeError>(e),
            },
    {
        let ghost full = old(self).current_frame.owned@;
        while self.current_frame.owned.len() > 0
            invariant
                self.wf(),
                *self == (Kernel {
                    current_frame: self.current_frame,
                    heap: self.heap,
                    ..*old(self)
                }),
                self.current_frame == (CallFrame {
                    owned: self.current_frame.owned,
                    ..old(self).current_frame
                }),
                self.current_frame.owned@.len() <= full.len(),
                self.current_frame.owned@ =~= full.skip(
                    full.len() - self.current_frame.owned@.len(),
                ),
                old(self).spec_first_drop_error(full, 0) == old(self).spec_first_drop_error(
                    full,
                    full.len() - self.current_frame.owned@.len(),
                ),
                forall|n2: NodeId|
                    self.current_frame.spec_owns(n2) ==> #[trigger] self.heap.spec_has_node(n2)
                        == old(self).heap.spec_has_node(n2),
                forall|id: SubstateId|
                    self.current_frame.spec_owns(id.node_id) ==> #[trigger] self.heap.spec_get(id)
                        == old(self).heap.spec_get(id),
                forall|n2: NodeId|
                    #[trigger] self.heap.spec_has_node(n2) ==> old(self).heap.spec_has_node(n2),
            decreases self.current_frame.owned@.len(),
        {
            let ghost done = full.len() - self.current_frame.owned@.len();
            let node = self.current_frame.owned[0];
            proof {
                assert(node == full[done]);
                assert(self.current_frame.spec_owns(node)) by {
                    assert(self.current_frame.owned@[0] == node);
                }
                // The drop checks of the head read only state the
                // preceding drops left untouched.
                assert(self.spec_drop_node_error(node) == old(self).spec_drop_node_error(node))
                    by {
                    assert(self.heap.spec_get(
                        SubstateId {
                            node_id: node,
                            partition: PartitionNumber(0),
                            key: SubstateKey::Field(0),
                        },
                    ) == old(self).heap.spec_get(
                        SubstateId {
                            node_id: node,
                            partition: PartitionNumber(0),
                            key: SubstateKey::Field(0),
                        },
                    ));
                    assert(self.current_frame.spec_take_error(node) == old(self).current_frame.spec_take_error(node)) by {
                        assert(self.current_frame.opened == old(self).current_frame.opened);
                        assert(old(self).current_frame.spec_owns(node)) by {
                            assert(full[done] == node);
                            assert(old(self).current_frame.owned@.contains(node));
                        }
                    }
                }
            }
            let ghost pre = *self;
            match self.kernel_drop_node(node) {
                Ok(_) => {
                    proof {
                        assert(self.current_frame.owned@ =~= pre.current_frame.owned@.remove_value(
                            node,
                        ));
                        assert(pre.current_frame.owned@.remove_value(node)
                            =~= pre.current_frame.owned@.drop_first()) by {
                            pre.current_frame.owned@.index_of_first_ensures(node);
                            let fi = pre.current_frame.owned@.index_of_first(node)->Some_0;
                            assert(pre.current_frame.owned@[0] == node);
                            assert(pre.current_frame.owned@.contains(node)) by {
                                assert(pre.current_frame.owned@[0] == node);
                            }
                            assert(fi == 0) by {
                                if fi > 0 {
                                    assert(pre.current_frame.owned@[fi] == node);
                                }
                            }
                            assert(pre.current_frame.owned@.remove_value(node)
                                == pre.current_frame.owned@.remove(0));
                            assert(pre.current_frame.owned@.remove(0)
                                =~= pre.current_frame.owned@.drop_first());
                        }
                        assert(self.current_frame.owned@ =~= full.skip(done + 1));
                        assert(old(self).spec_first_drop_error(full, done + 1) == old(self).spec_first_drop_error(full, done));
                    }
                },
                Err(e) => {
                    proof {
                        assert(old(self).spec_drop_node_error(node) == Some(e));
                        assert(old(self).spec_first_drop_error(full, done) == Some(e));
                    }
                    return Err(e);
                },
            }
        }
        Ok(())
    }

    /// Invokes an executor: pushes a frame moving the argument's nodes
    /// down, runs the executor, auto-releases its locks, moves the
    /// output's nodes back up, drops what remains, and pops the frame.
    /// Each lifecycle hook runs at its defined point and may reject.
    pub fn kernel_invoke(
        &mut self,
        executor: &Executor,
        args: SubstateValue,
        receiver: Option<NodeId>,
    ) -> (r: Result<SubstateValue, RuntimeError>)
        requires
            old(self).wf(),
        ensures
            final(self).wf(),
            final(self).current_frame.depth == old(self).current_frame.depth,
            final(self).prev_frame_stack@ == old(self).prev_frame_stack@,
            final(self).execution_mode == old(self).execution_mode,
            final(self).current_frame.opened == old(self).current_frame.opened,
            final(self).current_frame.stable_refs == old(self).current_frame.stable_refs,
            final(self).current_frame.next_handle == old(self).current_frame.next_handle,
            match r {
                Ok(out) => (forall|n: NodeId|
                    #[trigger] final(self).current_frame.spec_owns(n) == ((old(self).current_frame.spec_owns(n) && !args.owns@.contains(n)) || out.owns@.contains(
                        n,
                    ))) && (forall|n: NodeId|
                    args.owns@.contains(n) && !out.owns@.contains(n) ==> !(#[trigger] final(self).heap.spec_has_node(n))),
                Err(_) => true,
            },
            old(self).current_frame.depth >= MAX_CALL_DEPTH ==> r == Err::<
                SubstateValue,
                RuntimeError,
            >(RuntimeError::KernelError(KernelError::MaxCallDepthLimitReached)) && *final(self)
                == *old(self),
            old(self).current_frame.depth < MAX_CALL_DEPTH && old(self).module.spec_auth_denies(
                receiver,
            ) ==> (match receiver {
                Some(n) => r == Err::<SubstateValue, RuntimeError>(RuntimeError::ModuleError(
                    crate::errors::ModuleError::AuthError(crate::errors::AuthError::Unauthorized(n)),
                )),
                None => false,
            }) && final(self).current_frame == old(self).current_frame && final(self).heap == old(self).heap && final(self).track == old(self).track && final(self).module == old(self).module,
            old(self).current_frame.depth < MAX_CALL_DEPTH && !old(self).module.spec_auth_denies(
                receiver,
            ) ==> (match old(self).module.costing {
                Some(c0) => ({
                    let (s2, e) = c0.fee_reserve.consume_execution_step(
                        crate::modules::INVOKE_COST_UNITS,
                    );
                    match e {
                        Some(err) => r == Err::<SubstateValue, RuntimeError>(
                            RuntimeError::ModuleError(
                                crate::errors::ModuleError::CostingError(err),
                            ),
                        ) && final(self).current_frame == old(self).current_frame && final(self).heap == old(self).heap && final(self).track == old(self).track && (match final(self).module.costing {
                            Some(c1) => c1.fee_reserve == s2,
                            None => false,
                        }),
                        None => true,
                    }
                }),
                None => true,
            }),
            old(self).current_frame.depth < MAX_CALL_DEPTH && !old(self).module.spec_auth_denies(
                receiver,
            ) && old(self).module.spec_costing_charge_ok() ==> ({
                let pairs = args.refs@.map_values(
                    |n: NodeId| (n, crate::call_frame::VisibilityOrigin::Normal),
                );
                match crate::call_frame::spec_first_invisible_ref(
                    old(self).current_frame,
                    pairs,
                    0,
                ) {
                    Some(n) => r == Err::<SubstateValue, RuntimeError>(RuntimeError::KernelError(
                        KernelError::CallFrameError(
                            CallFrameError::CreateFrameError(
                                crate::call_frame::CreateFrameError::PassMessageError(
                                    crate::call_frame::PassMessageError::RefNotVisible(n),
                                ),
                            ),
                        ),
                    )) && final(self).current_frame == old(self).current_frame && final(self).heap
                        == old(self).heap && final(self).track == old(self).track,
                    None => match old(self).current_frame.spec_take_all_error(args.owns@, 0) {
                        Some(e) => r == Err::<SubstateValue, RuntimeError>(
                            RuntimeError::KernelError(
                                KernelError::CallFrameError(
                                    CallFrameError::CreateFrameError(
                                        crate::call_frame::CreateFrameError::PassMessageError(
                                            crate::call_frame::PassMessageError::TakeNodeError(e),
                                        ),
                                    ),
                                ),
                            ),
                        ) && final(self).current_frame == old(self).current_frame && final(self).heap == old(self).heap && final(self).track == old(self).track,
                        None => true,
                    },
                }
            }),
        decreases *executor,
    {
        let ghost aseq = args.owns@;
        if self.current_frame.depth >= MAX_CALL_DEPTH {
            return Err(RuntimeError::KernelError(KernelError::MaxCallDepthLimitReached));
        }

        let saved_mode = self.execution_mode;
        self.execution_mode = ExecutionMode::Kernel;

        // Before-push hooks: auth may reject, costing charges.
        self.execution_mode = ExecutionMode::KernelModule;
        let hook = self.module.before_push_frame(receiver);
        self.execution_mode = ExecutionMode::Kernel;
        match hook {
            Ok(_) => {},
            Err(e) => {
                self.execution_mode = saved_mode;
                return Err(e);
            },
        }
        proof {
            assert(match (old(self).module.costing, self.module.costing) {
                (Some(c0), Some(c1)) => ({
                    let (s2, e) = c0.fee_reserve.consume_execution_step(
                        crate::modules::INVOKE_COST_UNITS,
                    );
                    c1.fee_reserve == s2 && e is None
                }),
                (None, None) => true,
                _ => false,
            });
        }

        // Push the child frame, moving the argument's nodes down and
        // copying its references.
        let nodes = args.owns.clone();
        let ghost nseq = nodes@;
        proof {
            assert(nseq =~= aseq);
        }
        let mut refs: Vec<(NodeId, VisibilityOrigin)> = Vec::new();
        let rcount: usize = args.refs.len();
        let mut ri: usize = 0;
        while ri < rcount
            invariant
                ri <= rcount,
                rcount == args.refs@.len(),
                refs@ =~= args.refs@.take(ri as int).map_values(
                    |n: NodeId| (n, VisibilityOrigin::Normal),
                ),
            decreases rcount - ri,
        {
            refs.push((args.refs[ri], VisibilityOrigin::Normal));
            proof {
                assert(args.refs@.take(ri + 1) =~= args.refs@.take(ri as int).push(
                    args.refs@[ri as int],
                ));
                assert(args.refs@.take(ri + 1).map_values(
                    |n: NodeId| (n, VisibilityOrigin::Normal),
                ) =~= args.refs@.take(ri as int).map_values(
                    |n: NodeId| (n, VisibilityOrigin::Normal),
                ).push((args.refs@[ri as int], VisibilityOrigin::Normal)));
            }
            ri = ri + 1;
        }
        proof {
            assert(args.refs@.take(rcount as int) =~= args.refs@);
            assert(refs@ =~= args.refs@.map_values(|n: NodeId| (n, VisibilityOrigin::Normal)));
        }
        let child = match CallFrame::new_child_from_parent(&mut self.current_frame, nodes, refs) {
            Ok(child) => child,
            Err(e) => {
                self.execution_mode = saved_mode;
                return Err(
                    RuntimeError::KernelError(
                        KernelError::CallFrameError(CallFrameError::CreateFrameError(e)),
                    ),
                );
            },
        };
        let ghost parent_after_push = self.current_frame;
        let mut child = child;
        core::mem::swap(&mut self.current_frame, &mut child);
        self.prev_frame_stack.push(child);

        // Execute, with the start and finish hooks around the run.
        let result = self.run_executor(executor, args);

        // Pop the frame; the parent was pushed right above, and the
        // executor leaves the stack as it found it.
        let parent = match self.prev_frame_stack.pop() {
            Some(parent) => parent,
            None => {
                self.execution_mode = saved_mode;
                return Err(RuntimeError::KernelError(KernelError::MaxCallDepthLimitReached));
            },
        };
        proof {
            assert(parent == parent_after_push);
        }
        let output = match result {
            Ok(output) => output,
            Err(e) => {
                self.current_frame = parent;
                self.execution_mode = saved_mode;
                return Err(e);
            },
        };

        // Auto-release any locks the execution left open.
        match self.current_frame.drop_all_locks(&mut self.track) {
            Ok(_) => {},
            Err(e) => {
                self.current_frame = parent;
                self.execution_mode = saved_mode;
                return Err(
                    RuntimeError::KernelError(
                        KernelError::CallFrameError(CallFrameError::CloseSubstateError(e)),
                    ),
                );
            },
        }

        // Move the output's nodes up to the caller.
        let mut parent = parent;
        let moved = output.owns.clone();
        let ghost mseq = moved@;
        proof {
            assert(mseq =~= output.owns@);
        }
        match CallFrame::update_upstream(&mut self.current_frame, &mut parent, moved) {
            Ok(_) => {},
            Err(e) => {
                self.current_frame = parent;
                self.execution_mode = saved_mode;
                return Err(
                    RuntimeError::KernelError(
                        KernelError::CallFrameError(CallFrameError::PassMessageError(e)),
                    ),
                );
            },
        }
        let ghost parent_final = parent;

        // Drop whatever the child still owns, then restore the caller.
        match self.drop_nodes_in_frame() {
            Ok(_) => {},
            Err(e) => {
                self.current_frame = parent;
                self.execution_mode = saved_mode;
                return Err(e);
            },
        }
        self.current_frame = parent;

        // After-pop hooks.
        self.execution_mode = ExecutionMode::KernelModule;
        let hook = self.module.after_pop_frame();
        self.execution_mode = saved_mode;
        match hook {
            Ok(_) => {},
            Err(e) => {
                return Err(e);
            },
        }
        proof {
            assert(self.current_frame == parent_final);
            let pa = parent_after_push.owned@;
            let whole = parent_final.owned@;
            assert(whole == pa + mseq);
            assert forall|n: NodeId|
                #[trigger] self.current_frame.spec_owns(n) == ((old(self).current_frame.spec_owns(n) && !args.owns@.contains(n)) || output.owns@.contains(
                    n,
                )) by {
                assert(parent_after_push.spec_owns(n) == (old(self).current_frame.spec_owns(n)
                    && !aseq.contains(n)));
                assert(aseq.contains(n) == args.owns@.contains(n));
                assert(mseq.contains(n) == output.owns@.contains(n));
                if whole.contains(n) {
                    let q = choose|q: int| 0 <= q < whole.len() && whole[q] == n;
                    if q < pa.len() {
                        assert(pa[q] == n);
                        assert(parent_after_push.spec_owns(n));
                    } else {
                        assert(mseq[q - pa.len()] == n);
                        assert(mseq.contains(n));
                    }
                } else {
                    if parent_after_push.spec_owns(n) {
                        let q = choose|q: int| 0 <= q < pa.len() && pa[q] == n;
                        assert(whole[q] == n);
                    }
                    if mseq.contains(n) {
                        let q = choose|q: int| 0 <= q < mseq.len() && mseq[q] == n;
                        assert(whole[pa.len() + q] == n);
                    }
                }
            }
        }
        Ok(output)
    }

    /// The always-visible root set: the well-known global entities a
    /// root invocation may reference without any prior grant, declared
    /// in one place rather than scattered per call site.
    pub fn always_visible_roots() -> (r: Vec<NodeId>)
        ensures
            r@ =~= seq![
                NodeId { entity: EntityType::GlobalPackage, index: 0 },
                NodeId { entity: EntityType::GlobalPackage, index: 1 },
                NodeId { entity: EntityType::GlobalPackage, index: 2 },
                NodeId { entity: EntityType::GlobalPackage, index: 3 },
                NodeId { entity: EntityType::GlobalPackage, index: 4 },
                NodeId { entity: EntityType::GlobalPackage, index: 5 },
            ],
    {
        let mut roots: Vec<NodeId> = Vec::new();
        let mut i: u64 = 0;
        while i < 6
            invariant
                i <= 6,
                roots@.len() == i,
                forall|j: int|
                    0 <= j < i ==> #[trigger] roots@[j] == (NodeId {
                        entity: EntityType::GlobalPackage,
                        index: j as u64,
                    }),
            decreases 6 - i,
        {
            roots.push(NodeId { entity: EntityType::GlobalPackage, index: i });
            i = i + 1;
        }
        roots
    }

    /// Whether one root reference cannot be resolved: it is not yet
    /// visible, not in the always-visible root set, and names a global
    /// or vault entity whose root substate the overlay cannot find.
    pub open spec fn spec_seed_ref_fails(
        frame: CallFrame,
        track: Track,
        roots: Seq<NodeId>,
        n: NodeId,
    ) -> bool {
        &&& !frame.spec_visible(n)
        &&& !roots.contains(n)
        &&& (n.spec_is_global() || n.entity == EntityType::InternalFungibleVault)
        &&& track.spec_get_v(
            SubstateId { node_id: n, partition: PartitionNumber(0), key: SubstateKey::Field(0) },
        ) is None
    }

    /// The first unresolvable reference in the list, if any.
    pub open spec fn spec_first_unresolvable_ref(
        frame: CallFrame,
        track: Track,
        roots: Seq<NodeId>,
        refs: Seq<NodeId>,
        k: int,
    ) -> Option<NodeId>
        decreases refs.len() - k,
    {
        if k < 0 || k >= refs.len() {
            None
        } else if Kernel::spec_seed_ref_fails(frame, track, roots, refs[k]) {
            Some(refs[k])
        } else {
            Kernel::spec_first_unresolvable_ref(frame, track, roots, refs, k + 1)
        }
    }

    /// Grants the root frame visibility of the references a root
    /// invocation carries: members of the always-visible root set are
    /// granted outright; any other global address, and any vault
    /// address, must have its root substate in the overlay — a vault is
    /// granted direct access, a global a normal reference — else the
    /// reference fails with a node-not-found error.  References of
    /// other kinds are left alone.
    #[verifier::loop_isolation(false)]
    fn seed_root_references(&mut self, refs: &Vec<NodeId>) -> (r: Result<(), RuntimeError>)
        requires
            old(self).wf(),
        ensures
            final(self).wf(),
            *final(self) == (Kernel { current_frame: final(self).current_frame, ..*old(self) }),
            final(self).current_frame == (CallFrame {
                stable_refs: final(self).current_frame.stable_refs,
                ..old(self).current_frame
            }),
            ({
                let roots = seq![
                    NodeId { entity: EntityType::GlobalPackage, index: 0 },
                    NodeId { entity: EntityType::GlobalPackage, index: 1 },
                    NodeId { entity: EntityType::GlobalPackage, index: 2 },
                    NodeId { entity: EntityType::GlobalPackage, index: 3 },
                    NodeId { entity: EntityType::GlobalPackage, index: 4 },
                    NodeId { entity: EntityType::GlobalPackage, index: 5 },
                ];
                match Kernel::spec_first_unresolvable_ref(
                    old(self).current_frame,
                    old(self).track,
                    roots,
                    refs@,
                    0,
                ) {
                    Some(n) => r == Err::<(), RuntimeError>(RuntimeError::KernelError(
                        KernelError::RENodeNotFound(n),
                    )),
                    None => r is Ok && (forall|i: int|
                        0 <= i < refs@.len() && ((#[trigger] refs@[i]).spec_is_global()
                            || refs@[i].entity == EntityType::InternalFungibleVault || old(self).current_frame.spec_visible(refs@[i])) ==> final(self).current_frame.spec_visible(refs@[i])),
                }
            }),
    {
        let ghost roots_spec = seq![
            NodeId { entity: EntityType::GlobalPackage, index: 0 },
            NodeId { entity: EntityType::GlobalPackage, index: 1 },
            NodeId { entity: EntityType::GlobalPackage, index: 2 },
            NodeId { entity: EntityType::GlobalPackage, index: 3 },
            NodeId { entity: EntityType::GlobalPackage, index: 4 },
            NodeId { entity: EntityType::GlobalPackage, index: 5 },
        ];
        let roots = Kernel::always_visible_roots();
        let total: usize = refs.len();
        let mut i: usize = 0;
        while i < total
            invariant
                self.wf(),
                roots@ =~= roots_spec,
                *self == (Kernel { current_frame: self.current_frame, ..*old(self) }),
                self.current_frame == (CallFrame {
                    stable_refs: self.current_frame.stable_refs,
                    ..old(self).current_frame
                }),
                forall|n: NodeId|
                    old(self).current_frame.spec_visible(n)
                        ==> #[trigger] self.current_frame.spec_visible(n),
                Kernel::spec_first_unresolvable_ref(
                    old(self).current_frame,
                    old(self).track,
                    roots_spec,
                    refs@,
                    0,
                ) == Kernel::spec_first_unresolvable_ref(
                    old(self).current_frame,
                    old(self).track,
                    roots_spec,
                    refs@,
                    i as int,
                ),
                forall|j: int|
                    0 <= j < i && ((#[trigger] refs@[j]).spec_is_global() || refs@[j].entity
                        == EntityType::InternalFungibleVault || old(self).current_frame.spec_visible(refs@[j])) ==> self.current_frame.spec_visible(
                        refs@[j],
                    ),
                old(self).current_frame.stable_refs@.len()
                    <= self.current_frame.stable_refs@.len(),
                forall|q: int|
                    0 <= q < old(self).current_frame.stable_refs@.len()
                        ==> #[trigger] self.current_frame.stable_refs@[q] == old(self).current_frame.stable_refs@[q],
                forall|q: int|
                    old(self).current_frame.stable_refs@.len() <= q
                        < self.current_frame.stable_refs@.len()
                        ==> !Kernel::spec_seed_ref_fails(
                        old(self).current_frame,
                        old(self).track,
                        roots_spec,
                        (#[trigger] self.current_frame.stable_refs@[q]).0,
                    ),
            decreases total - i,
        {
            let node = refs[i];
            let ghost pre = *self;
            if !self.current_frame.is_visible(node) {
                if crate::call_frame::node_list_contains(&roots, node) {
                    self.current_frame.add_stored_ref(node, VisibilityOrigin::Normal);
                } else if node.is_global() {
                    let sid = SubstateId::new(node, PartitionNumber(0), SubstateKey::Field(0));
                    let found = match self.track.get_substate(sid) {
                        Some(_) => true,
                        None => false,
                    };
                    if found {
                        self.current_frame.add_stored_ref(node, VisibilityOrigin::Normal);
                    } else {
                        proof {
                            assert(Kernel::spec_seed_ref_fails(
                                old(self).current_frame,
                                old(self).track,
                                roots_spec,
                                node,
                            )) by {
                                assert(!old(self).current_frame.spec_visible(node));
                            }
                        }
                        return Err(RuntimeError::KernelError(KernelError::RENodeNotFound(node)));
                    }
                } else if matches!(node.entity_type(), EntityType::InternalFungibleVault) {
                    let sid = SubstateId::new(node, PartitionNumber(0), SubstateKey::Field(0));
                    let found = match self.track.get_substate(sid) {
                        Some(_) => true,
                        None => false,
                    };
                    if found {
                        self.current_frame.add_stored_ref(node, VisibilityOrigin::DirectAccess);
                    } else {
                        proof {
                            assert(Kernel::spec_seed_ref_fails(
                                old(self).current_frame,
                                old(self).track,
                                roots_spec,
                                node,
                            )) by {
                                assert(!old(self).current_frame.spec_visible(node));
                            }
                        }
                        return Err(RuntimeError::KernelError(KernelError::RENodeNotFound(node)));
                    }
                }
            }
            proof {
                // Visibility only grows: a granted stable reference
                // keeps every earlier grant.
                assert forall|n: NodeId|
                    pre.current_frame.spec_visible(n) implies #[trigger] self.current_frame
                    .spec_visible(n) by {
                    if pre.current_frame.spec_has_stable_ref(n) {
                        let q = choose|q: int|
                            0 <= q < pre.current_frame.stable_refs@.len() && (
                            #[trigger] pre.current_frame.stable_refs@[q]).0 == n;
                        assert(self.current_frame.stable_refs@[q].0 == n);
                    }
                }
                // The head was either granted, already visible, or needs
                // no grant: it cannot be unresolvable, since an earlier
                // grant of the same node would itself be resolvable.
                assert(!Kernel::spec_seed_ref_fails(
                    old(self).current_frame,
                    old(self).track,
                    roots_spec,
                    refs@[i as int],
                )) by {
                    if Kernel::spec_seed_ref_fails(
                        old(self).current_frame,
                        old(self).track,
                        roots_spec,
                        node,
                    ) {
                        assert(pre.current_frame.spec_visible(node));
                        assert(!old(self).current_frame.spec_visible(node));
                        assert(pre.current_frame.spec_has_stable_ref(node)) by {
                            assert(pre.current_frame.owned == old(self).current_frame.owned);
                            assert(pre.current_frame.opened == old(self).current_frame.opened);
                        }
                        let q = choose|q: int|
                            0 <= q < pre.current_frame.stable_refs@.len() && (
                            #[trigger] pre.current_frame.stable_refs@[q]).0 == node;
                        if q < old(self).current_frame.stable_refs@.len() {
                            assert(old(self).current_frame.stable_refs@[q].0 == node);
                            assert(old(self).current_frame.spec_has_stable_ref(node));
                        } else {
                            assert(!Kernel::spec_seed_ref_fails(
                                old(self).current_frame,
                                old(self).track,
                                roots_spec,
                                pre.current_frame.stable_refs@[q].0,
                            ));
                        }
                    }
                }
                // A fresh grant is resolvable by the branch that made it.
                assert forall|q: int|
                    old(self).current_frame.stable_refs@.len() <= q
                        < self.current_frame.stable_refs@.len()
                        implies !Kernel::spec_seed_ref_fails(
                        old(self).current_frame,
                        old(self).track,
                        roots_spec,
                        (#[trigger] self.current_frame.stable_refs@[q]).0,
                    ) by {
                    if q < pre.current_frame.stable_refs@.len() {
                        assert(self.current_frame.stable_refs@[q]
                            == pre.current_frame.stable_refs@[q]);
                    }
                }
            }
            i = i + 1;
        }
        Ok(())
    }

    /// Invokes an executor on a receiver: at the root frame the
    /// argument's references are first granted visibility, and a global
    /// receiver is dereferenced under a read lock that stays held until
    /// the call completes, so the node cannot be reassigned mid-call.
    pub fn invoke_internal(
        &mut self,
        receiver: Option<NodeId>,
        executor: &Executor,
        args: SubstateValue,
    ) -> (r: Result<SubstateValue, RuntimeError>)
        requires
            old(self).wf(),
        ensures
            final(self).wf(),
            final(self).current_frame.depth == old(self).current_frame.depth,
            final(self).prev_frame_stack@ == old(self).prev_frame_stack@,
            final(self).execution_mode == old(self).execution_mode,
            r matches Ok(out) ==> (forall|n: NodeId|
                #[trigger] final(self).current_frame.spec_owns(n) == ((old(self).current_frame.spec_owns(n) && !args.owns@.contains(n)) || out.owns@.contains(
                    n,
                ))) && final(self).current_frame.opened@ == old(self).current_frame.opened@,
    {
        if self.current_frame.depth == 0 {
            match self.seed_root_references(&args.refs) {
                Ok(_) => {},
                Err(e) => {
                    return Err(e);
                },
            }
        }
        let ghost aseq = args.owns@;
        let ghost mid1 = *self;
        let deref = match receiver {
            Some(n) => {
                match self.node_method_deref(n) {
                    Ok(d) => d,
                    Err(e) => {
                        return Err(e);
                    },
                }
            },
            None => None,
        };
        let ghost mid2 = *self;
        proof {
            assert(mid2.current_frame.owned == mid1.current_frame.owned);
            assert(mid1.current_frame.owned == old(self).current_frame.owned);
            assert(mid1.current_frame.opened == old(self).current_frame.opened);
        }
        let out = match self.kernel_invoke(executor, args, receiver) {
            Ok(out) => out,
            Err(e) => {
                return Err(e);
            },
        };
        let ghost post_invoke = *self;
        match deref {
            Some((_, handle)) => {
                proof {
                    // The deref entry is still the newest open substate.
                    assert(self.current_frame.opened == mid2.current_frame.opened);
                    self.current_frame.lemma_opened_index(
                        self.current_frame.opened@.len() - 1,
                    );
                    assert(self.current_frame.opened@.last().handle == handle);
                }
                let ghost pre_close = *self;
                match self.kernel_close_substate(handle) {
                    Ok(_) => {},
                    Err(e) => {
                        return Err(e);
                    },
                }
                proof {
                    let idx = pre_close.current_frame.spec_opened_index(handle);
                    assert(idx == pre_close.current_frame.opened@.len() - 1);
                    let o = pre_close.current_frame.opened@[idx];
                    assert(self.current_frame.opened@ =~= mid1.current_frame.opened@) by {
                        assert(self.current_frame.opened@ == pre_close.current_frame.opened@
                            .remove(idx));
                        assert(forall|j: int|
                            0 <= j < mid1.current_frame.opened@.len()
                                ==> #[trigger] pre_close.current_frame.opened@[j]
                                == mid1.current_frame.opened@[j]);
                    }
                    assert forall|n: NodeId|
                        #[trigger] self.current_frame.spec_owns(n) == pre_close.current_frame
                        .spec_owns(n) by {
                        assert(self.current_frame.owned@ =~= pre_close.current_frame.owned@) by {
                            assert(o.detached_children@ =~= Seq::<NodeId>::empty());
                            assert(self.current_frame.owned@ == pre_close.current_frame.owned@
                                + o.detached_children@);
                        }
                    }
                }
            },
            None => {},
        }
        proof {
            assert forall|n: NodeId|
                #[trigger] self.current_frame.spec_owns(n) == ((old(self).current_frame.spec_owns(n) && !aseq.contains(n)) || out.owns@.contains(n)) by {
                assert(post_invoke.current_frame.spec_owns(n) == ((
                mid2.current_frame.spec_owns(n) && !aseq.contains(n)) || out.owns@.contains(n)));
                assert(mid2.current_frame.spec_owns(n) == old(self).current_frame.spec_owns(n));
                if deref is Some {
                } else {
                    assert(*self == post_invoke);
                }
            }
            assert(self.current_frame.opened@ == old(self).current_frame.opened@) by {
                if deref is Some {
                    assert(self.current_frame.opened@ =~= mid1.current_frame.opened@);
                } else {
                    assert(*self == post_invoke);
                    assert(post_invoke.current_frame.opened == mid2.current_frame.opened);
                    assert(mid2.current_frame.opened == old(self).current_frame.opened);
                }
            }
        }
        Ok(out)
    }

    /// Runs one executor inside the already-pushed child frame.
    fn run_executor(&mut self, executor: &Executor, args: SubstateValue) -> (r: Result<
        SubstateValue,
        RuntimeError,
    >)
        requires
            old(self).wf(),
        ensures
            final(self).wf(),
            final(self).current_frame.depth == old(self).current_frame.depth,
            final(self).prev_frame_stack@ == old(self).prev_frame_stack@,
            final(self).execution_mode == ExecutionMode::Kernel,
            r matches Ok(out) ==> (forall|n: NodeId|
                args.owns@.contains(n) && !out.owns@.contains(n) ==> !(#[trigger] final(self).heap.spec_has_node(n))),
        decreases *executor, 0int,
    {
        self.execution_mode = ExecutionMode::KernelModule;
        let hook = self.module.on_execution_start();
        self.execution_mode = ExecutionMode::Kernel;
        match hook {
            Ok(_) => {},
            Err(e) => {
                return Err(e);
            },
        }

        self.execution_mode = ExecutionMode::Client;
        let output = match executor {
            Executor::Echo => Ok(args),
            Executor::DropArgs => {
                let mut owns = args.owns;
                let ghost oseq = owns@;
                let ghost ototal = oseq.len() as int;
                let mut failed: Option<RuntimeError> = None;
                while owns.len() > 0
                    invariant_except_break
                        owns@ =~= oseq.skip(ototal - owns@.len()),
                        failed is None,
                        forall|j: int|
                            0 <= j < ototal - owns@.len() ==> !(#[trigger] self.heap.spec_has_node(
                                oseq[j],
                            )),
                    invariant
                        self.wf(),
                        self.current_frame.depth == old(self).current_frame.depth,
                        self.prev_frame_stack@ == old(self).prev_frame_stack@,
                        owns@.len() <= oseq.len(),
                        ototal == oseq.len() as int,
                    ensures
                        self.wf(),
                        self.current_frame.depth == old(self).current_frame.depth,
                        self.prev_frame_stack@ == old(self).prev_frame_stack@,
                        failed is None ==> forall|j: int|
                            0 <= j < ototal ==> !(#[trigger] self.heap.spec_has_node(oseq[j])),
                    decreases owns@.len(),
                {
                    let ghost done = ototal - owns@.len();
                    let node = owns.remove(0);
                    proof {
                        assert(node == oseq[done]);
                        assert(owns@ =~= oseq.skip(done + 1));
                    }
                    match self.kernel_drop_node(node) {
                        Ok(_) => {},
                        Err(e) => {
                            failed = Some(e);
                            break ;
                        },
                    }
                }
                match failed {
                    Some(e) => Err(e),
                    None => Ok(SubstateValue::unit()),
                }
            },
            Executor::Forward(inner) => self.kernel_invoke(inner, args, None),
        };
        self.execution_mode = ExecutionMode::Kernel;
        let output = match output {
            Ok(output) => output,
            Err(e) => {
                return Err(e);
            },
        };

        self.execution_mode = ExecutionMode::KernelModule;
        let hook = self.module.on_execution_finish();
        self.execution_mode = ExecutionMode::Kernel;
        match hook {
            Ok(_) => {},
            Err(e) => {
                return Err(e);
            },
        }
        Ok(output)
    }

    /// Dereferences a global address used as a receiver: takes a
    /// read lock on its root field that the caller releases only after
    /// the invoked call completes, pinning the node meanwhile.
    pub fn node_method_deref(&mut self, node_id: NodeId) -> (r: Result<
        Option<(NodeId, u32)>,
        RuntimeError,
    >)
        requires
            old(self).wf(),
        ensures
            final(self).wf(),
            *final(self) == (Kernel {
                current_frame: final(self).current_frame,
                track: final(self).track,
                ..*old(self)
            }),
            final(self).current_frame.depth == old(self).current_frame.depth,
            final(self).current_frame.owned == old(self).current_frame.owned,
            r matches Ok(None) ==> *final(self) == *old(self),
            !node_id.spec_is_global() ==> r == Ok::<Option<(NodeId, u32)>, RuntimeError>(None)
                && *final(self) == *old(self),
            node_id.spec_is_global() ==> ({
                let sid = SubstateId {
                    node_id,
                    partition: PartitionNumber(0),
                    key: SubstateKey::Field(0),
                };
                match old(self).current_frame.spec_open_error(
                    old(self).heap,
                    old(self).track,
                    sid,
                    LockFlags { mutable: false },
                ) {
                    None => r == Ok::<Option<(NodeId, u32)>, RuntimeError>(
                        Some((node_id, old(self).current_frame.next_handle)),
                    ),
                    Some(e) => (e matches OpenSubstateError::TrackError(TrackError::NotFound(_))
                        && node_id.entity.spec_is_virtualizable()) || (r == Err::<
                        Option<(NodeId, u32)>,
                        RuntimeError,
                    >(RuntimeError::KernelError(
                        KernelError::CallFrameError(CallFrameError::OpenSubstateError(e)),
                    )) && final(self).current_frame == old(self).current_frame),
                }
            }),
            r matches Ok(Some(p)) ==> ({
                let o = final(self).current_frame.opened@.last();
                &&& p.0 == node_id
                &&& final(self).current_frame.spec_opened_contains(p.1)
                &&& final(self).current_frame.opened@.len() == old(self).current_frame.opened@.len() + 1
                &&& (forall|j: int|
                    0 <= j < old(self).current_frame.opened@.len() ==> #[trigger] final(self).current_frame.opened@[j] == old(self).current_frame.opened@[j])
                &&& o.handle == p.1
                &&& o.substate_id == (SubstateId {
                    node_id,
                    partition: PartitionNumber(0),
                    key: SubstateKey::Field(0),
                })
                &&& !o.flags.mutable
                &&& o.detached_children@ =~= Seq::<NodeId>::empty()
                &&& final(self).current_frame.owned == old(self).current_frame.owned
                &&& final(self).current_frame.depth == old(self).current_frame.depth
                &&& (o.in_store ==> final(self).track.spec_lock(o.substate_id)
                    != LockState::Free)
            }),
    {
        if !node_id.is_global() {
            return Ok(None);
        }
        let handle = match self.kernel_open_substate(
            node_id,
            PartitionNumber(0),
            SubstateKey::Field(0),
            LockFlags::read_only(),
        ) {
            Ok(handle) => handle,
            Err(e) => {
                return Err(e);
            },
        };
        proof {
            assert(self.current_frame.spec_opened_contains(handle));
        }
        Ok(Some((node_id, handle)))
    }

    /// Dereferences a global address for a substate access that does not
    /// target its root field.
    pub fn node_offset_deref(
        &mut self,
        node_id: NodeId,
        partition: PartitionNumber,
        key: SubstateKey,
    ) -> (r: Result<Option<(NodeId, u32)>, RuntimeError>)
        requires
            old(self).wf(),
        ensures
            final(self).wf(),
            *final(self) == (Kernel {
                current_frame: final(self).current_frame,
                track: final(self).track,
                ..*old(self)
            }),
            !node_id.spec_is_global() ==> r == Ok::<Option<(NodeId, u32)>, RuntimeError>(None)
                && *final(self) == *old(self),
            node_id.spec_is_global() && partition == PartitionNumber(0) && key
                == SubstateKey::Field(0) ==> r == Ok::<Option<(NodeId, u32)>, RuntimeError>(None)
                && *final(self) == *old(self),
            node_id.spec_is_global() && !(partition == PartitionNumber(0) && key
                == SubstateKey::Field(0)) ==> ({
                let sid = SubstateId {
                    node_id,
                    partition: PartitionNumber(0),
                    key: SubstateKey::Field(0),
                };
                match old(self).current_frame.spec_open_error(
                    old(self).heap,
                    old(self).track,
                    sid,
                    LockFlags { mutable: false },
                ) {
                    None => r == Ok::<Option<(NodeId, u32)>, RuntimeError>(
                        Some((node_id, old(self).current_frame.next_handle)),
                    ),
                    Some(e) => (e matches OpenSubstateError::TrackError(TrackError::NotFound(_))
                        && node_id.entity.spec_is_virtualizable()) || (r == Err::<
                        Option<(NodeId, u32)>,
                        RuntimeError,
                    >(RuntimeError::KernelError(
                        KernelError::CallFrameError(CallFrameError::OpenSubstateError(e)),
                    )) && final(self).current_frame == old(self).current_frame),
                }
            }),
            r matches Ok(Some(p)) ==> p.0 == node_id && final(self).current_frame.spec_opened_contains(p.1),
    {
        if !node_id.is_global() {
            return Ok(None);
        }
        let is_root_field = match (partition, key) {
            (PartitionNumber(0), SubstateKey::Field(0)) => true,
            _ => false,
        };
        if is_root_field {
            return Ok(None);
        }
        self.node_method_deref(node_id)
    }
}



} // verus!
