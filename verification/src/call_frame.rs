//! One call frame: the per-invocation bookkeeping of which nodes the
//! frame owns, which it may see, and which substates it holds open.
//!
//! Every way of moving a node out of a frame — nesting it into a new
//! node, writing it into an open substate, re-parenting a partition, or
//! passing it to a callee — goes through one central predicate: a node
//! can be taken only while no open substate borrows it.  The four call
//! sites surface the same rule under their own error types.

use vstd::prelude::*;
use crate::types::{
    LockFlags, NodeId, PartitionNumber, SubstateId, SubstateKey, SubstateValue,
};
use crate::heap::Heap;
use crate::track::{LockState, Track, TrackError};

verus! {

/// How a reference became visible to the frame.
#[derive(Debug, Clone, Copy, PartialEq, Eq, Structural)]
pub enum VisibilityOrigin {
    Normal,
    DirectAccess,
}

/// Taking a node out of a frame fails while the node is borrowed by an
/// open substate, or when the frame does not own it.
#[derive(Debug, Clone, Copy, PartialEq, Eq, Structural)]
pub enum TakeNodeError {
    OwnNotFound(NodeId),
    SubstateBorrowed(NodeId),
}

/// Failure while absorbing the owned nodes of a substate value.
#[derive(Debug, Clone, Copy, PartialEq, Eq, Structural)]
pub enum ProcessSubstateError {
    TakeNodeError(TakeNodeError),
}

#[derive(Debug, Clone, Copy, PartialEq, Eq, Structural)]
pub enum CreateNodeError {
    NodeAlreadyExists(NodeId),
    ProcessSubstateError(ProcessSubstateError),
}

#[derive(Debug, Clone, Copy, PartialEq, Eq, Structural)]
pub enum OpenSubstateError {
    NodeNotVisible(NodeId),
    SubstateNotFound(SubstateId),
    HandleOverflow,
    LockConflict(SubstateId),
    OwnedNodeUnavailable(NodeId),
    TrackError(TrackError),
}

#[derive(Debug, Clone, Copy, PartialEq, Eq, Structural)]
pub enum ReadSubstateError {
    HandleNotFound(u32),
    SubstateMissing(SubstateId),
}

#[derive(Debug, Clone, Copy, PartialEq, Eq, Structural)]
pub enum WriteSubstateError {
    HandleNotFound(u32),
    NoWritePermission,
    SubstateMissing(SubstateId),
    ProcessSubstateError(ProcessSubstateError),
}

#[derive(Debug, Clone, Copy, PartialEq, Eq, Structural)]
pub enum CloseSubstateError {
    HandleNotFound(u32),
    SubstateBorrowed(NodeId),
    TrackError(TrackError),
}

#[derive(Debug, Clone, Copy, PartialEq, Eq, Structural)]
pub enum MovePartitionError {
    NodeAlreadyExists(NodeId),
    NodeNotAvailable(NodeId),
    SubstateBorrowed(NodeId),
}

#[derive(Debug, Clone, Copy, PartialEq, Eq, Structural)]
pub enum PassMessageError {
    TakeNodeError(TakeNodeError),
    RefNotVisible(NodeId),
    NodeAlreadyVisible(NodeId),
}

#[derive(Debug, Clone, Copy, PartialEq, Eq, Structural)]
pub enum CreateFrameError {
    PassMessageError(PassMessageError),
}

/// One open substate lock: its handle, the substate it covers, the
/// access it grants, where the substate lives, whether it was written,
/// the nodes the current value owns, and the nodes detached from the
/// value while it has been open.
#[derive(Debug)]
pub struct OpenedSubstate {
    pub handle: u32,
    pub substate_id: SubstateId,
    pub flags: LockFlags,
    pub in_store: bool,
    pub written: bool,
    pub owned_children: Vec<NodeId>,
    pub detached_children: Vec<NodeId>,
}

/// The nodes an open substate borrows besides its owner: the nodes its
/// value owns and the nodes detached from it while open.
pub open spec fn kids(o: OpenedSubstate) -> Seq<NodeId> {
    o.owned_children@ + o.detached_children@
}

/// Whether an open substate borrows the node `n`.
pub open spec fn refs_node(o: OpenedSubstate, n: NodeId) -> bool {
    o.substate_id.node_id == n || kids(o).contains(n)
}

/// One stack level's ownership, visibility and lock bookkeeping.
#[derive(Debug)]
pub struct CallFrame {
    pub depth: usize,
    pub owned: Vec<NodeId>,
    pub stable_refs: Vec<(NodeId, VisibilityOrigin)>,
    pub opened: Vec<OpenedSubstate>,
    pub next_handle: u32,
}

impl CallFrame {
    /// Owned nodes are unique; handles grow with the position in the
    /// open list and stay below the next handle; the borrowed children
    /// of open substates are pairwise distinct and never simultaneously
    /// owned roots; and a substate opened on a borrowed child always
    /// carries a larger handle than the lock that borrows the child, so
    /// closing newest-first never hits a borrow conflict.
    pub open spec fn wf(self) -> bool {
        &&& forall|i: int, j: int|
            0 <= i < j < self.owned@.len() ==> self.owned@[i] != self.owned@[j]
        &&& forall|i: int, j: int|
            0 <= i < j < self.opened@.len() ==> (#[trigger] self.opened@[i]).handle < (
            #[trigger] self.opened@[j]).handle
        &&& forall|i: int|
            0 <= i < self.opened@.len() ==> (#[trigger] self.opened@[i]).handle
                < self.next_handle
        &&& forall|i: int|
            0 <= i < self.opened@.len() ==> kids_unique(#[trigger] self.opened@[i])
        &&& forall|i: int, j: int, n: NodeId|
            0 <= i < self.opened@.len() && 0 <= j < self.opened@.len() && i != j
                && #[trigger] kids(self.opened@[i]).contains(n) ==> !(#[trigger] kids(
                self.opened@[j],
            ).contains(n))
        &&& forall|i: int, n: NodeId|
            0 <= i < self.opened@.len() && #[trigger] kids(self.opened@[i]).contains(n)
                ==> !self.spec_owns(n)
        &&& forall|i: int, j: int|
            0 <= i < self.opened@.len() && 0 <= j < self.opened@.len() && i != j
                && #[trigger] kids(self.opened@[j]).contains(self.opened@[i].substate_id.node_id)
                ==> self.opened@[i].handle > self.opened@[j].handle
    }

    pub open spec fn spec_owns(self, n: NodeId) -> bool {
        self.owned@.contains(n)
    }

    /// Whether some open substate borrows `n`, as its owner or as a
    /// child of its value.
    pub open spec fn spec_borrowed(self, n: NodeId) -> bool {
        exists|i: int| 0 <= i < self.opened@.len() && refs_node(#[trigger] self.opened@[i], n)
    }

    pub open spec fn spec_has_stable_ref(self, n: NodeId) -> bool {
        exists|i: int|
            0 <= i < self.stable_refs@.len() && (#[trigger] self.stable_refs@[i]).0 == n
    }

    /// Whether the frame may address the node at all: as an owned root,
    /// through an open substate that borrows it, or as a reference.
    pub open spec fn spec_visible(self, n: NodeId) -> bool {
        self.spec_owns(n) || self.spec_borrowed(n) || self.spec_has_stable_ref(n)
    }

    pub open spec fn spec_opened_contains(self, handle: u32) -> bool {
        exists|i: int| 0 <= i < self.opened@.len() && (#[trigger] self.opened@[i]).handle == handle
    }

    pub open spec fn spec_opened_index(self, handle: u32) -> int {
        choose|i: int| 0 <= i < self.opened@.len() && (#[trigger] self.opened@[i]).handle == handle
    }

    /// The central predicate of the move discipline: the error that
    /// taking `n` out of this frame yields, if any.  A borrowed node is
    /// rejected before ownership is even consulted.
    pub open spec fn spec_take_error(self, n: NodeId) -> Option<TakeNodeError> {
        if self.spec_borrowed(n) {
            Some(TakeNodeError::SubstateBorrowed(n))
        } else if !self.spec_owns(n) {
            Some(TakeNodeError::OwnNotFound(n))
        } else {
            None
        }
    }

    /// The first error in taking the listed nodes one after another;
    /// a node listed twice is gone when its second occurrence is taken.
    pub open spec fn spec_take_all_error(self, nodes: Seq<NodeId>, k: int) -> Option<
        TakeNodeError,
    >
        decreases nodes.len() - k,
    {
        if k < 0 || k >= nodes.len() {
            None
        } else if self.spec_borrowed(nodes[k]) {
            Some(TakeNodeError::SubstateBorrowed(nodes[k]))
        } else if !self.spec_owns(nodes[k]) || nodes.take(k).contains(nodes[k]) {
            Some(TakeNodeError::OwnNotFound(nodes[k]))
        } else {
            self.spec_take_all_error(nodes, k + 1)
        }
    }

    /// In a well-formed frame, the open substate at position `i` is the
    /// one the handle functions yield for its handle.
    pub proof fn lemma_opened_index(self, i: int)
        requires
            self.wf(),
            0 <= i < self.opened@.len(),
        ensures
            self.spec_opened_contains(self.opened@[i].handle),
            self.spec_opened_index(self.opened@[i].handle) == i,
    {
        assert(self.spec_opened_contains(self.opened@[i].handle));
        let k = self.spec_opened_index(self.opened@[i].handle);
        if k < i {
            assert(self.opened@[k].handle < self.opened@[i].handle);
        } else if k > i {
            assert(self.opened@[i].handle < self.opened@[k].handle);
        }
    }

    /// The root frame: no owned nodes, no references, no open substates.
    pub fn new_root() -> (r: CallFrame)
        ensures
            r.wf(),
            r.depth == 0,
            r.next_handle == 0,
            r.owned@ =~= Seq::<NodeId>::empty(),
            r.stable_refs@ =~= Seq::<(NodeId, VisibilityOrigin)>::empty(),
            r.opened@ =~= Seq::<OpenedSubstate>::empty(),
    {
        CallFrame {
            depth: 0,
            owned: Vec::new(),
            stable_refs: Vec::new(),
            opened: Vec::new(),
            next_handle: 0,
        }
    }

    pub fn owns(&self, n: NodeId) -> (r: bool)
        ensures
            r == self.spec_owns(n),
    {
        node_list_contains(&self.owned, n)
    }

    /// Whether some open substate borrows `n`.
    pub fn is_borrowed(&self, n: NodeId) -> (r: bool)
        ensures
            r == self.spec_borrowed(n),
    {
        let count: usize = self.opened.len();
        let mut i: usize = 0;
        while i < count
            invariant
                i <= count,
                count == self.opened@.len(),
                forall|j: int| 0 <= j < i ==> !refs_node(#[trigger] self.opened@[j], n),
            decreases count - i,
        {
            let o = &self.opened[i];
            if o.substate_id.node_id == n {
                proof {
                    assert(refs_node(self.opened@[i as int], n));
                }
                return true;
            }
            if node_list_contains(&o.owned_children, n) {
                proof {
                    assert(kids(self.opened@[i as int]).contains(n)) by {
                        let k = choose|k: int|
                            0 <= k < o.owned_children@.len() && o.owned_children@[k] == n;
                        assert(kids(self.opened@[i as int])[k] == n);
                    }
                }
                return true;
            }
            if node_list_contains(&o.detached_children, n) {
                proof {
                    assert(kids(self.opened@[i as int]).contains(n)) by {
                        let k = choose|k: int|
                            0 <= k < o.detached_children@.len() && o.detached_children@[k] == n;
                        assert(kids(self.opened@[i as int])[o.owned_children@.len() + k] == n);
                    }
                }
                return true;
            }
            proof {
                assert(!refs_node(self.opened@[i as int], n)) by {
                    if kids(self.opened@[i as int]).contains(n) {
                        let k = choose|k: int|
                            0 <= k < kids(self.opened@[i as int]).len() && kids(
                                self.opened@[i as int],
                            )[k] == n;
                        if k < o.owned_children@.len() {
                            assert(o.owned_children@[k] == n);
                        } else {
                            assert(o.detached_children@[k - o.owned_children@.len()] == n);
                        }
                    }
                }
            }
            i = i + 1;
        }
        false
    }

    pub fn has_stable_ref(&self, n: NodeId) -> (r: bool)
        ensures
            r == self.spec_has_stable_ref(n),
    {
        let count: usize = self.stable_refs.len();
        let mut i: usize = 0;
        while i < count
            invariant
                i <= count,
                count == self.stable_refs@.len(),
                forall|j: int| 0 <= j < i ==> (#[trigger] self.stable_refs@[j]).0 != n,
            decreases count - i,
        {
            if self.stable_refs[i].0 == n {
                return true;
            }
            i = i + 1;
        }
        false
    }

    pub fn is_visible(&self, n: NodeId) -> (r: bool)
        ensures
            r == self.spec_visible(n),
    {
        self.owns(n) || self.is_borrowed(n) || self.has_stable_ref(n)
    }

    /// Grants the frame a stable reference to `n`.
    pub fn add_stored_ref(&mut self, n: NodeId, origin: VisibilityOrigin)
        requires
            old(self).wf(),
        ensures
            final(self).wf(),
            final(self).spec_has_stable_ref(n),
            *final(self) == (CallFrame {
                stable_refs: final(self).stable_refs,
                ..*old(self)
            }),
            final(self).stable_refs@ == old(self).stable_refs@.push((n, origin)),
    {
        self.stable_refs.push((n, origin));
        proof {
            assert(self.stable_refs@[old(self).stable_refs@.len() as int].0 == n);
        }
    }

    /// The list of nodes this frame owns.
    pub fn owned_nodes(&self) -> (r: Vec<NodeId>)
        ensures
            r@ == self.owned@,
    {
        let mut out: Vec<NodeId> = Vec::new();
        let count: usize = self.owned.len();
        let mut i: usize = 0;
        while i < count
            invariant
                i <= count,
                count == self.owned@.len(),
                out@ =~= self.owned@.take(i as int),
            decreases count - i,
        {
            out.push(self.owned[i]);
            proof {
                assert(out@ =~= self.owned@.take(i + 1));
            }
            i = i + 1;
        }
        proof {
            assert(self.owned@.take(count as int) =~= self.owned@);
        }
        out
    }

    /// Takes `n` out of the frame's owned roots, rejecting a borrowed
    /// node.  On an error the frame is unchanged.
    #[verifier::loop_isolation(false)]
    pub fn take_node_internal(&mut self, n: NodeId) -> (r: Result<(), TakeNodeError>)
        requires
            old(self).wf(),
        ensures
            final(self).wf(),
            match old(self).spec_take_error(n) {
                Some(e) => r == Err::<(), TakeNodeError>(e) && *final(self) == *old(self),
                None => r is Ok && final(self).owned@ == old(self).owned@.remove_value(n)
                    && final(self).owned@.len() == old(self).owned@.len() - 1
                    && *final(self) == (CallFrame { owned: final(self).owned, ..*old(self) })
                    && !final(self).spec_owns(n) && (forall|m: NodeId|
                    m != n ==> #[trigger] final(self).spec_owns(m) == old(self).spec_owns(m)),
            },
    {
        if self.is_borrowed(n) {
            return Err(TakeNodeError::SubstateBorrowed(n));
        }
        let count: usize = self.owned.len();
        let mut i: usize = 0;
        while i < count
            invariant
                i <= count,
                count == self.owned@.len(),
                *self == *old(self),
                forall|j: int| 0 <= j < i ==> self.owned@[j] != n,
            decreases count - i,
        {
            if self.owned[i] == n {
                self.owned.remove(i);
                proof {
                    let s0 = old(self).owned@;
                    let s1 = self.owned@;
                    let iv = i as int;
                    assert(forall|j: int|
                        0 <= j < s1.len() ==> #[trigger] s1[j] == if j < iv {
                            s0[j]
                        } else {
                            s0[j + 1]
                        });
                    assert(s1 =~= s0.remove_value(n)) by {
                        assert(s0.contains(n)) by {
                            assert(s0[iv] == n);
                        }
                        s0.index_of_first_ensures(n);
                        let first = s0.index_of_first(n)->Some_0;
                        assert(s0[first] == n);
                        assert(first == iv) by {
                            if first < iv {
                                assert(s0[first] != n);
                            } else if first > iv {
                                assert(s0[iv] != n);
                            }
                        }
                        assert(s0.remove_value(n) == s0.remove(iv));
                        assert(s1 =~= s0.remove(iv));
                    }
                    assert(self.opened@ == old(self).opened@);
                    assert(!self.spec_owns(n)) by {
                        if s1.contains(n) {
                            let k = choose|k: int| 0 <= k < s1.len() && s1[k] == n;
                            if k < iv {
                                assert(s0[k] == n);
                            } else {
                                assert(s0[k + 1] == n && s0[iv] == n);
                            }
                        }
                    }
                    assert forall|m: NodeId| m != n implies self.spec_owns(m) == old(self)
                        .spec_owns(m) by {
                        if s0.contains(m) {
                            let k = choose|k: int| 0 <= k < s0.len() && s0[k] == m;
                            assert(k != iv);
                            if k < iv {
                                assert(s1[k] == m);
                            } else {
                                assert(s1[k - 1] == m);
                            }
                        } else {
                            if s1.contains(m) {
                                let k = choose|k: int| 0 <= k < s1.len() && s1[k] == m;
                                if k < iv {
                                    assert(s0[k] == m);
                                } else {
                                    assert(s0[k + 1] == m);
                                }
                            }
                        }
                    }
                    assert(self.wf()) by {
                        assert forall|p: int, m: NodeId|
                            0 <= p < self.opened@.len() && #[trigger] kids(
                                self.opened@[p],
                            ).contains(m) implies !self.spec_owns(m) by {
                            assert(kids(old(self).opened@[p]).contains(m));
                            assert(!old(self).spec_owns(m));
                            if m == n {
                            } else {
                                assert(self.spec_owns(m) == old(self).spec_owns(m));
                            }
                        }
                    }
                }
                return Ok(());
            }
            i = i + 1;
        }
        Err(TakeNodeError::OwnNotFound(n))
    }

    /// The first node in `owns` that the frame cannot absorb as a freshly
    /// borrowed child: one listed twice, one the frame owns as a root, or
    /// one some open substate already borrows.  Under the kernel's
    /// ownership discipline a stored value never owns such a node.
    pub open spec fn spec_owns_check_error(self, owns: Seq<NodeId>, k: int) -> Option<NodeId>
        decreases owns.len() - k,
    {
        if k < 0 || k >= owns.len() {
            None
        } else if owns.take(k).contains(owns[k]) || self.spec_owns(owns[k]) || self.spec_borrowed(
            owns[k],
        ) {
            Some(owns[k])
        } else {
            self.spec_owns_check_error(owns, k + 1)
        }
    }

    /// When the owns check passes from position `k`, every listed node
    /// from `k` on is fresh: unborrowed, not an owned root, and distinct
    /// from every earlier listed node.
    pub proof fn lemma_owns_check_ok(self, owns: Seq<NodeId>, k: int)
        requires
            0 <= k,
            self.spec_owns_check_error(owns, k) is None,
        ensures
            forall|i: int|
                k <= i < owns.len() ==> !self.spec_owns(#[trigger] owns[i]) && !self.spec_borrowed(
                    owns[i],
                ),
            forall|i: int, j: int|
                0 <= j < i && k <= i < owns.len() ==> #[trigger] owns[j] != #[trigger] owns[i],
        decreases owns.len() - k,
    {
        if k < owns.len() {
            self.lemma_owns_check_ok(owns, k + 1);
            assert(!owns.take(k).contains(owns[k]));
            assert forall|j: int| 0 <= j < k implies owns[j] != owns[k] by {
                if owns[j] == owns[k] {
                    assert(owns.take(k)[j] == owns[k]);
                }
            }
        }
    }

    /// The error an `open_substate` call yields, if any.
    pub open spec fn spec_open_error(
        self,
        heap: Heap,
        track: Track,
        sid: SubstateId,
        flags: LockFlags,
    ) -> Option<OpenSubstateError> {
        if self.next_handle == u32::MAX {
            Some(OpenSubstateError::HandleOverflow)
        } else if !self.spec_visible(sid.node_id) {
            Some(OpenSubstateError::NodeNotVisible(sid.node_id))
        } else if heap.spec_has_node(sid.node_id) {
            match heap.spec_get(sid) {
                None => Some(OpenSubstateError::SubstateNotFound(sid)),
                Some(v) => {
                    if exists|i: int|
                        0 <= i < self.opened@.len() && (#[trigger] self.opened@[i]).substate_id
                            == sid {
                        Some(OpenSubstateError::LockConflict(sid))
                    } else {
                        match self.spec_owns_check_error(v.owns@, 0) {
                            Some(n) => Some(OpenSubstateError::OwnedNodeUnavailable(n)),
                            None => None,
                        }
                    }
                },
            }
        } else {
            match track.spec_get_v(sid) {
                None => Some(OpenSubstateError::TrackError(TrackError::NotFound(sid))),
                Some(v) => {
                    match self.spec_owns_check_error(v.owns, 0) {
                        Some(n) => Some(OpenSubstateError::OwnedNodeUnavailable(n)),
                        None => match track.spec_acquire_error(sid, flags.mutable) {
                            Some(e) => Some(OpenSubstateError::TrackError(e)),
                            None => None,
                        },
                    }
                },
            }
        }
    }

    /// Position of the open substate with this handle, if any.
    fn find_opened(&self, handle: u32) -> (r: Option<usize>)
        requires
            self.wf(),
        ensures
            match r {
                Some(i) => i < self.opened@.len() && self.opened@[i as int].handle == handle
                    && self.spec_opened_contains(handle) && self.spec_opened_index(handle) == i,
                None => !self.spec_opened_contains(handle),
            },
    {
        let count: usize = self.opened.len();
        let mut i: usize = 0;
        while i < count
            invariant
                i <= count,
                count == self.opened@.len(),
                self.wf(),
                forall|j: int| 0 <= j < i ==> (#[trigger] self.opened@[j]).handle != handle,
            decreases count - i,
        {
            if self.opened[i].handle == handle {
                proof {
                    self.lemma_opened_index(i as int);
                }
                return Some(i);
            }
            i = i + 1;
        }
        None
    }

    /// Whether some substate of `sid` is already open in this frame.
    fn has_open_on(&self, sid: SubstateId) -> (r: bool)
        ensures
            r == exists|i: int|
                0 <= i < self.opened@.len() && (#[trigger] self.opened@[i]).substate_id == sid,
    {
        let count: usize = self.opened.len();
        let mut i: usize = 0;
        while i < count
            invariant
                i <= count,
                count == self.opened@.len(),
                forall|j: int| 0 <= j < i ==> (#[trigger] self.opened@[j]).substate_id != sid,
            decreases count - i,
        {
            if self.opened[i].substate_id == sid {
                return true;
            }
            i = i + 1;
        }
        false
    }

    /// Checks that the owned nodes of a value about to be opened are
    /// fresh to this frame, yielding the first one that is not.
    #[verifier::loop_isolation(false)]
    fn owns_check(&self, owns: &Vec<NodeId>) -> (r: Option<NodeId>)
        requires
            self.wf(),
        ensures
            r == self.spec_owns_check_error(owns@, 0),
    {
        let count: usize = owns.len();
        let mut i: usize = 0;
        while i < count
            invariant
                i <= count,
                self.spec_owns_check_error(owns@, 0) == self.spec_owns_check_error(owns@, i as int),
            decreases count - i,
        {
            let n = owns[i];
            let mut dup = false;
            let mut j: usize = 0;
            while j < i
                invariant
                    j <= i,
                    i < count,
                    n == owns@[i as int],
                    dup == owns@.take(j as int).contains(n),
                decreases i - j,
            {
                if owns[j] == n {
                    proof {
                        assert(owns@.take(j + 1)[j as int] == n);
                    }
                    dup = true;
                } else {
                    proof {
                        assert(owns@.take(j + 1) =~= owns@.take(j as int).push(owns@[j as int]));
                        if owns@.take(j + 1).contains(n) {
                            assert(owns@.take(j as int).contains(n) || owns@[j as int] == n);
                        }
                    }
                }
                j = j + 1;
            }
            proof {
                assert(owns@.take(i as int).contains(n) == dup);
            }
            if dup || self.owns(n) || self.is_borrowed(n) {
                return Some(n);
            }
            i = i + 1;
        }
        None
    }

    /// Opens a substate of a visible node, granting a handle.  A heap
    /// substate may be open at most once in the frame; a store substate
    /// goes through the overlay's read/write locks, so a second mutable
    /// acquisition on the same substate, or any acquisition beside a
    /// mutable one, fails.
    #[verifier::loop_isolation(false)]
    pub fn open_substate(
        &mut self,
        heap: &Heap,
        track: &mut Track,
        node: NodeId,
        partition: PartitionNumber,
        key: SubstateKey,
        flags: LockFlags,
    ) -> (r: Result<u32, OpenSubstateError>)
        requires
            old(self).wf(),
            heap.wf(),
            old(track).wf(),
        ensures
            final(self).wf(),
            final(track).wf(),
            final(track).store == old(track).store,
            forall|id2: SubstateId|
                #[trigger] final(track).spec_get_v(id2) == old(track).spec_get_v(id2),
            ({
                let sid = SubstateId { node_id: node, partition, key };
                match old(self).spec_open_error(*heap, *old(track), sid, flags) {
                    Some(e) => r == Err::<u32, OpenSubstateError>(e) && *final(self) == *old(self)
                        && (forall|id2: SubstateId|
                        #[trigger] final(track).spec_lock(id2) == old(track).spec_lock(id2)),
                    None => {
                        &&& r == Ok::<u32, OpenSubstateError>(old(self).next_handle)
                        &&& final(self).opened@.len() == old(self).opened@.len() + 1
                        &&& final(self).opened@ == old(self).opened@.push(
                            final(self).opened@.last(),
                        )
                        &&& ({
                            let o = final(self).opened@.last();
                            &&& o.handle == old(self).next_handle
                            &&& o.substate_id == sid
                            &&& o.flags == flags
                            &&& o.in_store == !heap.spec_has_node(node)
                            &&& !o.written
                            &&& Some(o.owned_children@) == (match (heap.spec_has_node(node)) {
                                true => match heap.spec_get(sid) {
                                    Some(v) => Some(v.owns@),
                                    None => None::<Seq<NodeId>>,
                                },
                                false => match old(track).spec_get_v(sid) {
                                    Some(v) => Some(v.owns),
                                    None => None::<Seq<NodeId>>,
                                },
                            })
                            &&& o.detached_children@ =~= Seq::<NodeId>::empty()
                        })
                        &&& final(self).next_handle == old(self).next_handle + 1
                        &&& final(self).owned == old(self).owned
                        &&& final(self).stable_refs == old(self).stable_refs
                        &&& final(self).depth == old(self).depth
                        &&& (heap.spec_has_node(node) ==> forall|id2: SubstateId|
                            #[trigger] final(track).spec_lock(id2) == old(track).spec_lock(id2))
                        &&& (!heap.spec_has_node(node) ==> final(track).spec_lock(sid) == old(
                            track,
                        ).spec_lock_after_acquire(sid, flags.mutable) && (forall|id2: SubstateId|
                            id2 != sid ==> #[trigger] final(track).spec_lock(id2) == old(
                                track,
                            ).spec_lock(id2)))
                    },
                }
            }),
    {
        let sid = SubstateId::new(node, partition, key);
        if self.next_handle == u32::MAX {
            return Err(OpenSubstateError::HandleOverflow);
        }
        if !self.is_visible(node) {
            return Err(OpenSubstateError::NodeNotVisible(node));
        }
        let in_heap = heap.contains_node(node);
        let owned_children: Vec<NodeId>;
        if in_heap {
            let value = match heap.get_substate(sid) {
                Some(v) => v,
                None => {
                    return Err(OpenSubstateError::SubstateNotFound(sid));
                },
            };
            if self.has_open_on(sid) {
                return Err(OpenSubstateError::LockConflict(sid));
            }
            match self.owns_check(&value.owns) {
                Some(n) => {
                    return Err(OpenSubstateError::OwnedNodeUnavailable(n));
                },
                None => {},
            }
            let copy = value.owns.clone();
            proof {
                assert(copy@ =~= value.owns@);
            }
            owned_children = copy;
        } else {
            let value = match track.get_substate(sid) {
                Some(v) => v,
                None => {
                    return Err(OpenSubstateError::TrackError(TrackError::NotFound(sid)));
                },
            };
            match self.owns_check(&value.owns) {
                Some(n) => {
                    return Err(OpenSubstateError::OwnedNodeUnavailable(n));
                },
                None => {},
            }
            let copy = value.owns.clone();
            proof {
                assert(copy@ =~= value.owns@);
            }
            owned_children = copy;
            match track.acquire_lock(sid, flags.mutable) {
                Ok(_) => {},
                Err(e) => {
                    return Err(OpenSubstateError::TrackError(e));
                },
            }
        }
        let handle = self.next_handle;
        let o = OpenedSubstate {
            handle,
            substate_id: sid,
            flags,
            in_store: !in_heap,
            written: false,
            owned_children,
            detached_children: Vec::new(),
        };
        self.opened.push(o);
        self.next_handle = self.next_handle + 1;
        proof {
            let m = old(self).opened@.len() as int;
            let newo = self.opened@[m];
            assert(final(self).opened@ =~= old(self).opened@.push(final(self).opened@.last()));
            assert(kids(newo) =~= newo.owned_children@);
            old(self).lemma_owns_check_ok(newo.owned_children@, 0);
            assert(final(self).wf()) by {
                assert(forall|j: int|
                    0 <= j < m ==> (#[trigger] self.opened@[j]) == old(self).opened@[j]);
                assert forall|p: int, q: int, n2: NodeId|
                    0 <= p < self.opened@.len() && 0 <= q < self.opened@.len() && p != q
                        && #[trigger] kids(self.opened@[p]).contains(n2) implies !(#[trigger] kids(
                    self.opened@[q],
                ).contains(n2)) by {
                    if p == m {
                        assert(!old(self).spec_borrowed(n2));
                        assert(!refs_node(old(self).opened@[q], n2));
                    } else if q == m {
                        if kids(self.opened@[q]).contains(n2) {
                            assert(old(self).spec_borrowed(n2)) by {
                                assert(refs_node(old(self).opened@[p], n2));
                            }
                            assert(!old(self).spec_borrowed(n2));
                        }
                    } else {
                        assert(kids(old(self).opened@[p]).contains(n2));
                    }
                }
                assert forall|p: int, n2: NodeId|
                    0 <= p < self.opened@.len() && #[trigger] kids(self.opened@[p]).contains(n2)
                        implies !self.spec_owns(n2) by {
                    if p == m {
                    } else {
                        assert(kids(old(self).opened@[p]).contains(n2));
                    }
                }
                assert forall|p: int|
                    0 <= p < self.opened@.len() implies kids_unique(#[trigger] self.opened@[p]) by {
                    if p == m {
                        assert forall|a: int, b: int|
                            0 <= a < b < kids(newo).len() implies kids(newo)[a] != kids(
                            newo,
                        )[b] by {
                            assert(kids(newo)[a] == newo.owned_children@[a]);
                            assert(kids(newo)[b] == newo.owned_children@[b]);
                        }
                    }
                }
            }
        }
        Ok(handle)
    }

    /// Reads the substate under an open handle.
    pub fn read_substate<'a>(
        &self,
        heap: &'a Heap,
        track: &'a Track,
        handle: u32,
    ) -> (r: Result<&'a SubstateValue, ReadSubstateError>)
        requires
            self.wf(),
            heap.wf(),
            track.wf(),
        ensures
            !self.spec_opened_contains(handle) ==> r == Err::<&'a SubstateValue, ReadSubstateError>(
                ReadSubstateError::HandleNotFound(handle),
            ),
            self.spec_opened_contains(handle) ==> ({
                let o = self.opened@[self.spec_opened_index(handle)];
                match r {
                    Ok(v) => (o.in_store ==> track.spec_get_v(o.substate_id) == Some(v@)) && (
                    !o.in_store ==> heap.spec_get(o.substate_id) == Some(*v)),
                    Err(e) => e == ReadSubstateError::SubstateMissing(o.substate_id) && (o.in_store
                        ==> track.spec_get_v(o.substate_id) is None) && (!o.in_store
                        ==> heap.spec_get(o.substate_id) is None),
                }
            }),
    {
        let i = match self.find_opened(handle) {
            Some(i) => i,
            None => {
                return Err(ReadSubstateError::HandleNotFound(handle));
            },
        };
        let sid = self.opened[i].substate_id;
        if self.opened[i].in_store {
            match track.get_substate(sid) {
                Some(v) => Ok(v),
                None => Err(ReadSubstateError::SubstateMissing(sid)),
            }
        } else {
            match heap.get_substate(sid) {
                Some(v) => Ok(v),
                None => Err(ReadSubstateError::SubstateMissing(sid)),
            }
        }
    }

    /// The first node of `owns` that cannot be absorbed by a write: a
    /// node kept from the previous value passes; a newly nested node must
    /// be takeable; a duplicate is rejected.
    pub open spec fn spec_write_take_error(
        self,
        old_children: Seq<NodeId>,
        owns: Seq<NodeId>,
        k: int,
    ) -> Option<TakeNodeError>
        decreases owns.len() - k,
    {
        if k < 0 || k >= owns.len() {
            None
        } else {
            let n = owns[k];
            let dup = owns.take(k).contains(n);
            if old_children.contains(n) && !dup {
                self.spec_write_take_error(old_children, owns, k + 1)
            } else if self.spec_borrowed(n) {
                Some(TakeNodeError::SubstateBorrowed(n))
            } else if !self.spec_owns(n) || dup {
                Some(TakeNodeError::OwnNotFound(n))
            } else {
                self.spec_write_take_error(old_children, owns, k + 1)
            }
        }
    }

    /// The error a `write_substate` call yields, if any.
    pub open spec fn spec_write_error(
        self,
        heap: Heap,
        handle: u32,
        value: SubstateValue,
    ) -> Option<WriteSubstateError> {
        if !self.spec_opened_contains(handle) {
            Some(WriteSubstateError::HandleNotFound(handle))
        } else {
            let o = self.opened@[self.spec_opened_index(handle)];
            if !o.flags.mutable {
                Some(WriteSubstateError::NoWritePermission)
            } else if !o.in_store && heap.spec_get(o.substate_id) is None {
                Some(WriteSubstateError::SubstateMissing(o.substate_id))
            } else {
                match self.spec_write_take_error(o.owned_children@, value.owns@, 0) {
                    Some(e) => Some(
                        WriteSubstateError::ProcessSubstateError(
                            ProcessSubstateError::TakeNodeError(e),
                        ),
                    ),
                    None => None,
                }
            }
        }
    }

    /// When the write check passes from `k`, every listed node from `k`
    /// on is either kept from the previous value or freshly takeable,
    /// and no node is listed twice.
    pub proof fn lemma_write_check_ok(self, old_children: Seq<NodeId>, owns: Seq<NodeId>, k: int)
        requires
            0 <= k,
            self.spec_write_take_error(old_children, owns, k) is None,
        ensures
            forall|i: int|
                k <= i < owns.len() && !old_children.contains(#[trigger] owns[i]) ==> !self
                    .spec_borrowed(owns[i]) && self.spec_owns(owns[i]),
            forall|i: int, j: int|
                0 <= j < i && k <= i < owns.len() ==> #[trigger] owns[j] != #[trigger] owns[i],
        decreases owns.len() - k,
    {
        if k < owns.len() {
            self.lemma_write_check_ok(old_children, owns, k + 1);
            assert(!owns.take(k).contains(owns[k]));
            assert forall|j: int| 0 <= j < k implies owns[j] != owns[k] by {
                if owns[j] == owns[k] {
                    assert(owns.take(k)[j] == owns[k]);
                }
            }
        }
    }

    /// Writes a new value under a mutable handle.  Nodes newly nested
    /// into the value are taken from the frame's owned roots; nodes no
    /// longer owned by the value stay borrowed, as detached children,
    /// until the handle is closed.  This is the central move-checking
    /// path: nesting a borrowed node is rejected.
    #[verifier::loop_isolation(false)]
    pub fn write_substate(
        &mut self,
        heap: &mut Heap,
        track: &mut Track,
        handle: u32,
        value: SubstateValue,
    ) -> (r: Result<(), WriteSubstateError>)
        requires
            old(self).wf(),
            old(heap).wf(),
            old(track).wf(),
        ensures
            final(self).wf(),
            final(heap).wf(),
            final(track).wf(),
            final(track).store == old(track).store,
            match old(self).spec_write_error(*old(heap), handle, value) {
                Some(e) => r == Err::<(), WriteSubstateError>(e) && *final(self) == *old(self)
                    && *final(heap) == *old(heap) && *final(track) == *old(track),
                None => {
                    let o = old(self).opened@[old(self).spec_opened_index(handle)];
                    let on = final(self).opened@[old(self).spec_opened_index(handle)];
                    &&& r is Ok
                    &&& final(self).opened@ == old(self).opened@.update(
                        old(self).spec_opened_index(handle),
                        on,
                    )
                    &&& on.handle == o.handle
                    &&& on.substate_id == o.substate_id
                    &&& on.flags == o.flags
                    &&& on.in_store == o.in_store
                    &&& on.written
                    &&& on.owned_children@ == value.owns@
                    &&& on.detached_children@ == o.detached_children@ + o.owned_children@.filter(
                        |n: NodeId| !value.owns@.contains(n),
                    )
                    &&& (forall|m: NodeId|
                        #[trigger] final(self).spec_owns(m) == (old(self).spec_owns(m) && !(
                        value.owns@.contains(m) && !o.owned_children@.contains(m))))
                    &&& final(self).stable_refs == old(self).stable_refs
                    &&& final(self).depth == old(self).depth
                    &&& final(self).next_handle == old(self).next_handle
                    &&& (o.in_store ==> *final(heap) == *old(heap) && final(track).spec_get_v(
                        o.substate_id,
                    ) == Some(value@) && (forall|id2: SubstateId|
                        id2 != o.substate_id ==> #[trigger] final(track).spec_get_v(id2) == old(
                            track,
                        ).spec_get_v(id2)) && (forall|id2: SubstateId|
                        #[trigger] final(track).spec_lock(id2) == old(track).spec_lock(id2)))
                    &&& (!o.in_store ==> *final(track) == *old(track) && final(heap).spec_get(
                        o.substate_id,
                    ) == Some(value) && (forall|id2: SubstateId|
                        id2 != o.substate_id ==> #[trigger] final(heap).spec_get(id2) == old(
                            heap,
                        ).spec_get(id2)) && (forall|n2: NodeId|
                        #[trigger] final(heap).spec_has_node(n2) == old(heap).spec_has_node(n2)))
                },
            },
    {
        let idx = match self.find_opened(handle) {
            Some(i) => i,
            None => {
                return Err(WriteSubstateError::HandleNotFound(handle));
            },
        };
        if !self.opened[idx].flags.mutable {
            return Err(WriteSubstateError::NoWritePermission);
        }
        let sid = self.opened[idx].substate_id;
        let in_store = self.opened[idx].in_store;
        if !in_store {
            match heap.get_substate(sid) {
                Some(_) => {},
                None => {
                    return Err(WriteSubstateError::SubstateMissing(sid));
                },
            }
        }
        let old_children = self.opened[idx].owned_children.clone();
        proof {
            assert(old_children@ =~= old(self).opened@[idx as int].owned_children@);
        }

        // Check pass: find the first node the write cannot absorb.
        let total: usize = value.owns.len();
        let mut k: usize = 0;
        while k < total
            invariant
                k <= total,
                self.spec_write_take_error(old_children@, value.owns@, 0) == self
                    .spec_write_take_error(old_children@, value.owns@, k as int),
            decreases total - k,
        {
            let n = value.owns[k];
            let mut dup = false;
            let mut j: usize = 0;
            while j < k
                invariant
                    j <= k,
                    k < total,
                    n == value.owns@[k as int],
                    dup == value.owns@.take(j as int).contains(n),
                decreases k - j,
            {
                if value.owns[j] == n {
                    proof {
                        assert(value.owns@.take(j + 1)[j as int] == n);
                    }
                    dup = true;
                } else {
                    proof {
                        assert(value.owns@.take(j + 1) =~= value.owns@.take(j as int).push(
                            value.owns@[j as int],
                        ));
                        if value.owns@.take(j + 1).contains(n) {
                            assert(value.owns@.take(j as int).contains(n) || value.owns@[j as int]
                                == n);
                        }
                    }
                }
                j = j + 1;
            }
            proof {
                assert(value.owns@.take(k as int).contains(n) == dup);
            }
            let kept = node_list_contains(&old_children, n) && !dup;
            if !kept {
                if self.is_borrowed(n) {
                    return Err(
                        WriteSubstateError::ProcessSubstateError(
                            ProcessSubstateError::TakeNodeError(TakeNodeError::SubstateBorrowed(n)),
                        ),
                    );
                }
                if dup || !self.owns(n) {
                    return Err(
                        WriteSubstateError::ProcessSubstateError(
                            ProcessSubstateError::TakeNodeError(TakeNodeError::OwnNotFound(n)),
                        ),
                    );
                }
            }
            k = k + 1;
        }
        proof {
            old(self).lemma_write_check_ok(old_children@, value.owns@, 0);
        }

        // Commit pass: take the newly nested nodes out of the owned roots.
        let ghost pre = *self;
        let mut k2: usize = 0;
        while k2 < total
            invariant
                k2 <= total,
                self.wf(),
                self.opened == pre.opened,
                self.stable_refs == pre.stable_refs,
                self.depth == pre.depth,
                self.next_handle == pre.next_handle,
                forall|m: NodeId|
                    #[trigger] self.spec_owns(m) == (pre.spec_owns(m) && !(
                    value.owns@.take(k2 as int).contains(m) && !old_children@.contains(m))),
            decreases total - k2,
        {
            let n = value.owns[k2];
            let kept = node_list_contains(&old_children, n);
            proof {
                assert(value.owns@.take(k2 + 1) =~= value.owns@.take(k2 as int).push(n));
                assert(value.owns@.take(k2 + 1)[k2 as int] == n);
                assert(value.owns@.take(k2 + 1).contains(n));
            }
            let ghost mid = *self;
            if !kept {
                proof {
                    assert(self.spec_borrowed(n) == pre.spec_borrowed(n));
                    assert(!pre.spec_borrowed(n));
                    assert(pre.spec_owns(n));
                    assert(!value.owns@.take(k2 as int).contains(n)) by {
                        if value.owns@.take(k2 as int).contains(n) {
                            let jj = choose|jj: int|
                                0 <= jj < k2 && value.owns@.take(k2 as int)[jj] == n;
                            assert(value.owns@[jj] == n);
                        }
                    }
                    assert(self.spec_owns(n));
                }
                let taken = self.take_node_internal(n);
                proof {
                    assert(taken is Ok);
                    assert forall|m: NodeId|
                        #[trigger] self.spec_owns(m) == (pre.spec_owns(m) && !(
                        value.owns@.take(k2 + 1).contains(m) && !old_children@.contains(m))) by {
                        if m == n {
                            assert(!self.spec_owns(n));
                        } else {
                            assert(self.spec_owns(m) == mid.spec_owns(m));
                            assert(value.owns@.take(k2 + 1).contains(m) == value.owns@.take(
                                k2 as int,
                            ).contains(m)) by {
                                if value.owns@.take(k2 + 1).contains(m) {
                                    let jj = choose|jj: int|
                                        0 <= jj <= k2 && #[trigger] value.owns@.take(k2 + 1)[jj]
                                            == m;
                                    if jj < k2 {
                                        assert(value.owns@.take(k2 as int)[jj] == m);
                                    }
                                }
                            }
                        }
                    }
                }
            } else {
                proof {
                    assert forall|m: NodeId|
                        #[trigger] self.spec_owns(m) == (pre.spec_owns(m) && !(
                        value.owns@.take(k2 + 1).contains(m) && !old_children@.contains(m))) by {
                        if m == n {
                        } else {
                            assert(value.owns@.take(k2 + 1).contains(m) == value.owns@.take(
                                k2 as int,
                            ).contains(m)) by {
                                if value.owns@.take(k2 + 1).contains(m) {
                                    let jj = choose|jj: int|
                                        0 <= jj <= k2 && #[trigger] value.owns@.take(k2 + 1)[jj]
                                            == m;
                                    if jj < k2 {
                                        assert(value.owns@.take(k2 as int)[jj] == m);
                                    }
                                }
                            }
                        }
                    }
                }
            }
            k2 = k2 + 1;
        }
        let ghost post_take = *self;
        proof {
            assert(value.owns@.take(total as int) =~= value.owns@);
        }

        // Children no longer owned by the value become detached.
        let mut removed: Vec<NodeId> = Vec::new();
        let ghost rpred = |n: NodeId| !value.owns@.contains(n);
        let oc_total: usize = old_children.len();
        let mut k3: usize = 0;
        proof {
            reveal(Seq::filter);
            assert(old_children@.take(0) =~= Seq::<NodeId>::empty());
        }
        while k3 < oc_total
            invariant
                k3 <= oc_total,
                removed@ =~= old_children@.take(k3 as int).filter(
                    |n: NodeId| !value.owns@.contains(n),
                ),
            decreases oc_total - k3,
        {
            let n = old_children[k3];
            proof {
                reveal(Seq::filter);
                let t1 = old_children@.take(k3 + 1);
                assert(t1.drop_last() =~= old_children@.take(k3 as int));
                assert(t1.last() == n);
            }
            if !node_list_contains(&value.owns, n) {
                removed.push(n);
            }
            k3 = k3 + 1;
        }
        proof {
            assert(old_children@.take(oc_total as int) =~= old_children@);
        }

        // Rebuild the open-substate entry and store the value.
        let owns_copy = value.owns.clone();
        proof {
            assert(owns_copy@ =~= value.owns@);
        }
        let mut o = self.opened.remove(idx);
        let ghost opened_mid = self.opened@;
        o.owned_children = owns_copy;
        let mut r2: usize = 0;
        let rn: usize = removed.len();
        while r2 < rn
            invariant
                r2 <= rn,
                rn == removed@.len(),
                o.detached_children@ =~= old(self).opened@[idx as int].detached_children@
                    + removed@.take(r2 as int),
                o.handle == old(self).opened@[idx as int].handle,
                o.substate_id == old(self).opened@[idx as int].substate_id,
                o.flags == old(self).opened@[idx as int].flags,
                o.in_store == old(self).opened@[idx as int].in_store,
                o.owned_children@ == value.owns@,
            decreases rn - r2,
        {
            o.detached_children.push(removed[r2]);
            proof {
                assert(removed@.take(r2 + 1) =~= removed@.take(r2 as int).push(
                    removed@[r2 as int],
                ));
            }
            r2 = r2 + 1;
        }
        o.written = true;
        proof {
            assert(removed@.take(rn as int) =~= removed@);
        }
        self.opened.insert(idx, o);
        proof {
            assert(self.opened@ =~= old(self).opened@.update(idx as int, self.opened@[idx as int]));
        }
        if in_store {
            track.set_substate(sid, value);
        } else {
            heap.put_substate(sid, value);
        }
        proof {
            let on = self.opened@[idx as int];
            let oo = old(self).opened@[idx as int];
            assert(kids(on) =~= value.owns@ + (oo.detached_children@ + old_children@.filter(
                |n: NodeId| !value.owns@.contains(n),
            )));
            assert(old_children@ == oo.owned_children@);
            assert(self.owned == post_take.owned);
            assert(forall|m: NodeId|
                #[trigger] self.spec_owns(m) == (old(self).spec_owns(m) && !(
                value.owns@.contains(m) && !oo.owned_children@.contains(m)))) by {
                assert(forall|m: NodeId|
                    #[trigger] self.spec_owns(m) == post_take.spec_owns(m));
            }
            assert(self.wf()) by {
                assert(forall|j: int|
                    0 <= j < self.opened@.len() && j != idx as int ==> #[trigger] self.opened@[j]
                        == old(self).opened@[j]);
                assert forall|p: int, q: int, n2: NodeId|
                    0 <= p < self.opened@.len() && 0 <= q < self.opened@.len() && p != q
                        && #[trigger] kids(self.opened@[p]).contains(n2) implies !(#[trigger] kids(
                    self.opened@[q],
                ).contains(n2)) by {
                    lemma_write_kids_shape(old(self).opened@, idx as int, on, value.owns@, n2);
                    if p == idx as int {
                        assert(kids(oo).contains(n2) || (value.owns@.contains(n2)
                            && !oo.owned_children@.contains(n2)));
                        if kids(oo).contains(n2) {
                            assert(!kids(old(self).opened@[q]).contains(n2));
                        } else {
                            assert(old(self).spec_owns(n2));
                            assert(!kids(old(self).opened@[q]).contains(n2));
                        }
                    } else if q == idx as int {
                        assert(kids(old(self).opened@[p]).contains(n2));
                        if kids(on).contains(n2) {
                            assert(kids(oo).contains(n2) || (value.owns@.contains(n2)
                                && !oo.owned_children@.contains(n2)));
                            if kids(oo).contains(n2) {
                            } else {
                                assert(old(self).spec_owns(n2));
                            }
                        }
                    } else {
                        assert(kids(old(self).opened@[p]).contains(n2));
                        assert(!kids(old(self).opened@[q]).contains(n2));
                    }
                }
                assert forall|p: int, n2: NodeId|
                    0 <= p < self.opened@.len() && #[trigger] kids(self.opened@[p]).contains(n2)
                        implies !self.spec_owns(n2) by {
                    lemma_write_kids_shape(old(self).opened@, idx as int, on, value.owns@, n2);
                    if p == idx as int {
                        if kids(oo).contains(n2) {
                            assert(!old(self).spec_owns(n2));
                        } else {
                            assert(value.owns@.contains(n2) && !oo.owned_children@.contains(n2));
                        }
                    } else {
                        assert(kids(old(self).opened@[p]).contains(n2));
                        assert(!old(self).spec_owns(n2));
                    }
                }
                assert forall|p: int|
                    0 <= p < self.opened@.len() implies kids_unique(#[trigger] self.opened@[p]) by {
                    if p == idx as int {
                        assert(kids_unique(on)) by {
                            lemma_write_kids_unique(oo, on, value.owns@, *old(self), old_children@);
                        }
                    } else {
                        assert(self.opened@[p] == old(self).opened@[p]);
                    }
                }
                assert forall|p: int, q: int|
                    0 <= p < self.opened@.len() && 0 <= q < self.opened@.len() && p != q
                        && #[trigger] kids(self.opened@[q]).contains(
                        self.opened@[p].substate_id.node_id,
                    ) implies self.opened@[p].handle > self.opened@[q].handle by {
                    let owner = self.opened@[p].substate_id.node_id;
                    assert(owner == old(self).opened@[p].substate_id.node_id);
                    if q == idx as int {
                        lemma_write_kids_shape(old(self).opened@, idx as int, on, value.owns@, owner);
                        if kids(oo).contains(owner) {
                            assert(kids(old(self).opened@[q]).contains(owner));
                        } else {
                            // a freshly nested node was an unborrowed
                            // owned root, so it is nobody's lock owner
                            assert(old(self).spec_owns(owner));
                            assert(old(self).spec_borrowed(owner)) by {
                                assert(refs_node(old(self).opened@[p], owner));
                            }
                            assert(!old(self).spec_owns(owner)) by {
                                if kids(oo).contains(owner) {
                                } else {
                                    assert(value.owns@.contains(owner)
                                        && !oo.owned_children@.contains(owner));
                                    assert(!old(self).spec_borrowed(owner));
                                }
                            }
                        }
                    } else {
                        assert(kids(old(self).opened@[q]).contains(owner));
                    }
                }
            }
        }
        Ok(())
    }

    /// Whether an open substate other than the one at `idx` borrows `n`.
    pub open spec fn spec_borrowed_by_other(self, idx: int, n: NodeId) -> bool {
        exists|j: int|
            0 <= j < self.opened@.len() && j != idx && refs_node(#[trigger] self.opened@[j], n)
    }

    /// The first borrowed child of the open substate at `idx` that some
    /// other open substate still borrows, if any: such a child forbids
    /// closing, else the parent's view of it would go stale.
    pub open spec fn spec_close_borrow_error(self, idx: int, k: int) -> Option<NodeId>
        decreases kids(self.opened@[idx]).len() - k,
    {
        let ks = kids(self.opened@[idx]);
        if k < 0 || k >= ks.len() {
            None
        } else if self.spec_borrowed_by_other(idx, ks[k]) {
            Some(ks[k])
        } else {
            self.spec_close_borrow_error(idx, k + 1)
        }
    }

    /// The error a `close_substate` call yields, if any.
    pub open spec fn spec_close_error(self, track: Track, handle: u32) -> Option<
        CloseSubstateError,
    > {
        if !self.spec_opened_contains(handle) {
            Some(CloseSubstateError::HandleNotFound(handle))
        } else {
            let idx = self.spec_opened_index(handle);
            let o = self.opened@[idx];
            match self.spec_close_borrow_error(idx, 0) {
                Some(n) => Some(CloseSubstateError::SubstateBorrowed(n)),
                None => {
                    if o.in_store && track.spec_lock(o.substate_id) == LockState::Free {
                        Some(
                            CloseSubstateError::TrackError(
                                TrackError::LockUnderflow(o.substate_id),
                            ),
                        )
                    } else {
                        None
                    }
                },
            }
        }
    }

    fn borrowed_by_other(&self, idx: usize, n: NodeId) -> (r: bool)
        requires
            idx < self.opened@.len(),
        ensures
            r == self.spec_borrowed_by_other(idx as int, n),
    {
        let count: usize = self.opened.len();
        let mut j: usize = 0;
        while j < count
            invariant
                j <= count,
                count == self.opened@.len(),
                idx < count,
                forall|p: int|
                    0 <= p < j && p != idx as int ==> !refs_node(#[trigger] self.opened@[p], n),
            decreases count - j,
        {
            if j != idx {
                let o = &self.opened[j];
                let mut hit = o.substate_id.node_id == n;
                if !hit && node_list_contains(&o.owned_children, n) {
                    proof {
                        let k = choose|k: int|
                            0 <= k < o.owned_children@.len() && o.owned_children@[k] == n;
                        assert(kids(self.opened@[j as int])[k] == n);
                    }
                    hit = true;
                }
                if !hit && node_list_contains(&o.detached_children, n) {
                    proof {
                        let k = choose|k: int|
                            0 <= k < o.detached_children@.len() && o.detached_children@[k] == n;
                        assert(kids(self.opened@[j as int])[o.owned_children@.len() + k] == n);
                    }
                    hit = true;
                }
                if hit {
                    proof {
                        assert(refs_node(self.opened@[j as int], n));
                    }
                    return true;
                }
                proof {
                    assert(!refs_node(self.opened@[j as int], n)) by {
                        if kids(self.opened@[j as int]).contains(n) {
                            let k = choose|k: int|
                                0 <= k < kids(self.opened@[j as int]).len() && kids(
                                    self.opened@[j as int],
                                )[k] == n;
                            if k < o.owned_children@.len() {
                                assert(o.owned_children@[k] == n);
                            } else {
                                assert(o.detached_children@[k - o.owned_children@.len()] == n);
                            }
                        }
                    }
                }
            }
            j = j + 1;
        }
        false
    }

    /// Closes an open substate.  Fails while a node the substate borrows
    /// is still borrowed by another open substate; on success the nodes
    /// detached from the value while it was open return to the frame's
    /// owned roots, and a store lock is released.
    #[verifier::loop_isolation(false)]
    pub fn close_substate(&mut self, track: &mut Track, handle: u32) -> (r: Result<
        (),
        CloseSubstateError,
    >)
        requires
            old(self).wf(),
            old(track).wf(),
        ensures
            final(self).wf(),
            final(track).wf(),
            final(track).store == old(track).store,
            forall|id2: SubstateId|
                #[trigger] final(track).spec_get_v(id2) == old(track).spec_get_v(id2),
            match old(self).spec_close_error(*old(track), handle) {
                Some(e) => r == Err::<(), CloseSubstateError>(e) && *final(self) == *old(self)
                    && *final(track) == *old(track),
                None => {
                    let idx = old(self).spec_opened_index(handle);
                    let o = old(self).opened@[idx];
                    &&& r is Ok
                    &&& final(self).opened@ == old(self).opened@.remove(idx)
                    &&& final(self).owned@ == old(self).owned@ + o.detached_children@
                    &&& final(self).stable_refs == old(self).stable_refs
                    &&& final(self).depth == old(self).depth
                    &&& final(self).next_handle == old(self).next_handle
                    &&& (!o.in_store ==> *final(track) == *old(track))
                    &&& (o.in_store ==> final(track).spec_lock(o.substate_id) == (match old(
                        track,
                    ).spec_lock(o.substate_id) {
                        LockState::Read(n) => if n > 1 {
                            LockState::Read((n - 1) as u32)
                        } else {
                            LockState::Free
                        },
                        _ => LockState::Free,
                    }) && (forall|id2: SubstateId|
                        id2 != o.substate_id ==> #[trigger] final(track).spec_lock(id2) == old(
                            track,
                        ).spec_lock(id2)))
                },
            },
    {
        let idx = match self.find_opened(handle) {
            Some(i) => i,
            None => {
                return Err(CloseSubstateError::HandleNotFound(handle));
            },
        };
        let ghost ks = kids(self.opened@[idx as int]);

        // Check that no other open substate still borrows a child.
        let ol: usize = self.opened[idx].owned_children.len();
        let dl: usize = self.opened[idx].detached_children.len();
        let mut k: usize = 0;
        while k < ol
            invariant
                k <= ol,
                self.spec_close_borrow_error(idx as int, 0) == self.spec_close_borrow_error(
                    idx as int,
                    k as int,
                ),
            decreases ol - k,
        {
            let n = self.opened[idx].owned_children[k];
            proof {
                assert(ks[k as int] == n);
            }
            if self.borrowed_by_other(idx, n) {
                return Err(CloseSubstateError::SubstateBorrowed(n));
            }
            k = k + 1;
        }
        let mut k2: usize = 0;
        while k2 < dl
            invariant
                k2 <= dl,
                self.spec_close_borrow_error(idx as int, 0) == self.spec_close_borrow_error(
                    idx as int,
                    (ol + k2) as int,
                ),
            decreases dl - k2,
        {
            let n = self.opened[idx].detached_children[k2];
            proof {
                assert(ks[ol + k2] == n);
            }
            if self.borrowed_by_other(idx, n) {
                return Err(CloseSubstateError::SubstateBorrowed(n));
            }
            k2 = k2 + 1;
        }
        proof {
            assert(self.spec_close_borrow_error(idx as int, 0) is None);
        }

        // Release the overlay lock of a store substate.
        if self.opened[idx].in_store {
            let sid = self.opened[idx].substate_id;
            let written = self.opened[idx].written;
            match track.release_lock(sid, written) {
                Ok(_) => {},
                Err(e) => {
                    return Err(CloseSubstateError::TrackError(e));
                },
            }
        }

        // Remove the open substate; detached children return to the
        // owned roots.
        let o = self.opened.remove(idx);
        let ghost mid = *self;
        let dn: usize = o.detached_children.len();
        let mut d: usize = 0;
        while d < dn
            invariant
                d <= dn,
                self.owned@ =~= old(self).owned@ + o.detached_children@.take(d as int),
                self.opened == mid.opened,
                self.stable_refs == mid.stable_refs,
                self.depth == mid.depth,
                self.next_handle == mid.next_handle,
            decreases dn - d,
        {
            self.owned.push(o.detached_children[d]);
            proof {
                assert(o.detached_children@.take(d + 1) =~= o.detached_children@.take(
                    d as int,
                ).push(o.detached_children@[d as int]));
            }
            d = d + 1;
        }
        proof {
            assert(o.detached_children@.take(dn as int) =~= o.detached_children@);
            let oldo = old(self).opened@[idx as int];
            assert(o == oldo);
            assert(self.opened@ =~= old(self).opened@.remove(idx as int));
            assert(forall|j: int|
                0 <= j < self.opened@.len() ==> #[trigger] self.opened@[j] == (if j < idx as int {
                    old(self).opened@[j]
                } else {
                    old(self).opened@[j + 1]
                }));
            assert(self.wf()) by {
                let s1 = self.opened@;
                let ow1 = self.owned@;
                let ow0 = old(self).owned@;
                let det = oldo.detached_children@;
                // Owned roots stay unique: the returning detached
                // children are pairwise distinct, distinct from the old
                // roots, and from each other.
                assert forall|a: int, b: int| 0 <= a < b < ow1.len() implies ow1[a] != ow1[b] by {
                    if b >= ow0.len() {
                        assert(ow1[b] == det[b - ow0.len()]);
                        assert(kids(oldo)[oldo.owned_children@.len() + (b - ow0.len())] == ow1[b]);
                        assert(kids(oldo).contains(ow1[b]));
                        if a >= ow0.len() {
                            assert(ow1[a] == det[a - ow0.len()]);
                            assert(kids(oldo)[oldo.owned_children@.len() + (a - ow0.len())]
                                == ow1[a]);
                            assert(kids_unique(oldo));
                        } else {
                            assert(ow1[a] == ow0[a]);
                            assert(!old(self).spec_owns(ow1[b]));
                            if ow1[a] == ow1[b] {
                                assert(old(self).spec_owns(ow1[a]));
                            }
                        }
                    }
                }
                // Children of the remaining open substates are not owned
                // roots, including the freshly returned ones.
                assert forall|p: int, n2: NodeId|
                    0 <= p < s1.len() && #[trigger] kids(s1[p]).contains(n2) implies !self
                    .spec_owns(n2) by {
                    let p0 = if p < idx as int {
                        p
                    } else {
                        p + 1
                    };
                    assert(kids(old(self).opened@[p0]).contains(n2));
                    assert(!old(self).spec_owns(n2));
                    assert(!det.contains(n2)) by {
                        if det.contains(n2) {
                            let q = choose|q: int| 0 <= q < det.len() && det[q] == n2;
                            assert(kids(oldo)[oldo.owned_children@.len() + q] == n2);
                            assert(kids(oldo).contains(n2));
                            assert(p0 != idx as int);
                        }
                    }
                    if self.spec_owns(n2) {
                        let q = choose|q: int| 0 <= q < ow1.len() && ow1[q] == n2;
                        if q < ow0.len() {
                            assert(ow0[q] == n2);
                            assert(old(self).spec_owns(n2));
                        } else {
                            assert(det[q - ow0.len()] == n2);
                        }
                    }
                }
            }
        }
        Ok(())
    }

    /// When the take-all check passes from `k`, every listed node from
    /// `k` on is an unborrowed owned root and no node is listed twice.
    pub proof fn lemma_take_all_ok(self, nodes: Seq<NodeId>, k: int)
        requires
            0 <= k,
            self.spec_take_all_error(nodes, k) is None,
        ensures
            forall|i: int|
                k <= i < nodes.len() ==> !self.spec_borrowed(#[trigger] nodes[i]) && self.spec_owns(
                    nodes[i],
                ),
            forall|i: int, j: int|
                0 <= j < i && k <= i < nodes.len() ==> #[trigger] nodes[j] != #[trigger] nodes[i],
        decreases nodes.len() - k,
    {
        if k < nodes.len() {
            self.lemma_take_all_ok(nodes, k + 1);
            assert(!nodes.take(k).contains(nodes[k]));
            assert forall|j: int| 0 <= j < k implies nodes[j] != nodes[k] by {
                if nodes[j] == nodes[k] {
                    assert(nodes.take(k)[j] == nodes[k]);
                }
            }
        }
    }

    /// Takes every listed node out of the owned roots, checking all of
    /// them first so that a failure leaves the frame unchanged.
    #[verifier::loop_isolation(false)]
    fn take_all(&mut self, nodes: &Vec<NodeId>) -> (r: Result<(), TakeNodeError>)
        requires
            old(self).wf(),
        ensures
            final(self).wf(),
            match old(self).spec_take_all_error(nodes@, 0) {
                Some(e) => r == Err::<(), TakeNodeError>(e) && *final(self) == *old(self),
                None => r is Ok && *final(self) == (CallFrame {
                    owned: final(self).owned,
                    ..*old(self)
                }) && (forall|m: NodeId|
                    #[trigger] final(self).spec_owns(m) == (old(self).spec_owns(m)
                        && !nodes@.contains(m))),
            },
    {
        // Check pass.
        let total: usize = nodes.len();
        let mut k: usize = 0;
        while k < total
            invariant
                k <= total,
                self.spec_take_all_error(nodes@, 0) == self.spec_take_all_error(nodes@, k as int),
            decreases total - k,
        {
            let n = nodes[k];
            if self.is_borrowed(n) {
                return Err(TakeNodeError::SubstateBorrowed(n));
            }
            let mut dup = false;
            let mut j: usize = 0;
            while j < k
                invariant
                    j <= k,
                    k < total,
                    n == nodes@[k as int],
                    dup == nodes@.take(j as int).contains(n),
                decreases k - j,
            {
                if nodes[j] == n {
                    proof {
                        assert(nodes@.take(j + 1)[j as int] == n);
                    }
                    dup = true;
                } else {
                    proof {
                        assert(nodes@.take(j + 1) =~= nodes@.take(j as int).push(
                            nodes@[j as int],
                        ));
                        if nodes@.take(j + 1).contains(n) {
                            assert(nodes@.take(j as int).contains(n) || nodes@[j as int] == n);
                        }
                    }
                }
                j = j + 1;
            }
            if dup || !self.owns(n) {
                return Err(TakeNodeError::OwnNotFound(n));
            }
            k = k + 1;
        }
        proof {
            old(self).lemma_take_all_ok(nodes@, 0);
        }

        // Commit pass.
        let ghost pre = *self;
        let mut k2: usize = 0;
        while k2 < total
            invariant
                k2 <= total,
                self.wf(),
                *self == (CallFrame { owned: self.owned, ..pre }),
                forall|m: NodeId|
                    #[trigger] self.spec_owns(m) == (pre.spec_owns(m) && !nodes@.take(
                        k2 as int,
                    ).contains(m)),
            decreases total - k2,
        {
            let n = nodes[k2];
            let ghost mid = *self;
            proof {
                assert(nodes@.take(k2 + 1) =~= nodes@.take(k2 as int).push(n));
                assert(nodes@.take(k2 + 1)[k2 as int] == n);
                assert(nodes@.take(k2 + 1).contains(n));
                assert(self.spec_borrowed(n) == pre.spec_borrowed(n));
                assert(!nodes@.take(k2 as int).contains(n)) by {
                    if nodes@.take(k2 as int).contains(n) {
                        let jj = choose|jj: int|
                            0 <= jj < k2 && #[trigger] nodes@.take(k2 as int)[jj] == n;
                        assert(nodes@[jj] == n);
                    }
                }
                assert(self.spec_owns(n));
            }
            let taken = self.take_node_internal(n);
            proof {
                assert(taken is Ok);
                assert forall|m: NodeId|
                    #[trigger] self.spec_owns(m) == (pre.spec_owns(m) && !nodes@.take(
                        k2 + 1,
                    ).contains(m)) by {
                    if m == n {
                        assert(!self.spec_owns(n));
                    } else {
                        assert(self.spec_owns(m) == mid.spec_owns(m));
                        assert(nodes@.take(k2 + 1).contains(m) == nodes@.take(k2 as int).contains(
                            m,
                        )) by {
                            if nodes@.take(k2 + 1).contains(m) {
                                let jj = choose|jj: int|
                                    0 <= jj <= k2 && #[trigger] nodes@.take(k2 + 1)[jj] == m;
                                if jj < k2 {
                                    assert(nodes@.take(k2 as int)[jj] == m);
                                }
                            }
                        }
                    }
                }
            }
            k2 = k2 + 1;
        }
        proof {
            assert(nodes@.take(total as int) =~= nodes@);
        }
        Ok(())
    }

    /// The error a `create_node` call yields, if any.
    pub open spec fn spec_create_node_error(
        self,
        heap: Heap,
        node_id: NodeId,
        owns: Seq<NodeId>,
    ) -> Option<CreateNodeError> {
        if heap.spec_has_node(node_id) || self.spec_visible(node_id) {
            Some(CreateNodeError::NodeAlreadyExists(node_id))
        } else {
            match self.spec_take_all_error(owns, 0) {
                Some(e) => Some(
                    CreateNodeError::ProcessSubstateError(ProcessSubstateError::TakeNodeError(e)),
                ),
                None => None,
            }
        }
    }

    /// Registers a brand-new node as owned by this frame.  Every node a
    /// supplied value owns is taken from the frame's owned roots and
    /// nested into the new node; nesting a borrowed node is rejected.
    #[verifier::loop_isolation(false)]
    pub fn create_node(
        &mut self,
        heap: &mut Heap,
        node_id: NodeId,
        substates: Vec<(PartitionNumber, SubstateKey, SubstateValue)>,
    ) -> (r: Result<(), CreateNodeError>)
        requires
            old(self).wf(),
            old(heap).wf(),
            forall|i: int, j: int|
                0 <= i < j < substates@.len() ==> ((#[trigger] substates@[i]).0, substates@[i].1)
                    != ((#[trigger] substates@[j]).0, substates@[j].1),
        ensures
            final(self).wf(),
            final(heap).wf(),
            match old(self).spec_create_node_error(*old(heap), node_id, batch_owns(substates@)) {
                Some(e) => r == Err::<(), CreateNodeError>(e) && *final(self) == *old(self)
                    && *final(heap) == *old(heap),
                None => {
                    &&& r is Ok
                    &&& final(heap).spec_has_node(node_id)
                    &&& (forall|n2: NodeId|
                        n2 != node_id ==> #[trigger] final(heap).spec_has_node(n2) == old(
                            heap,
                        ).spec_has_node(n2))
                    &&& (forall|i: int|
                        0 <= i < substates@.len() ==> #[trigger] final(heap).spec_get(
                            SubstateId {
                                node_id,
                                partition: substates@[i].0,
                                key: substates@[i].1,
                            },
                        ) == Some(substates@[i].2))
                    &&& (forall|id: SubstateId|
                        id.node_id != node_id ==> #[trigger] final(heap).spec_get(id) == old(
                            heap,
                        ).spec_get(id))
                    &&& (forall|m: NodeId|
                        #[trigger] final(self).spec_owns(m) == ((old(self).spec_owns(m)
                            && !batch_owns(substates@).contains(m)) || m == node_id))
                    &&& final(self).opened == old(self).opened
                    &&& final(self).stable_refs == old(self).stable_refs
                    &&& final(self).depth == old(self).depth
                    &&& final(self).next_handle == old(self).next_handle
                },
            },
    {
        if heap.contains_node(node_id) || self.is_visible(node_id) {
            return Err(CreateNodeError::NodeAlreadyExists(node_id));
        }

        // Flatten the owned nodes of all supplied values, in order.
        let mut all_owns: Vec<NodeId> = Vec::new();
        let total: usize = substates.len();
        let mut i: usize = 0;
        proof {
            assert(substates@.take(0) =~= Seq::<
                (PartitionNumber, SubstateKey, SubstateValue),
            >::empty());
            assert(batch_owns(substates@.take(0)) =~= Seq::<NodeId>::empty());
        }
        while i < total
            invariant
                i <= total,
                all_owns@ =~= batch_owns(substates@.take(i as int)),
            decreases total - i,
        {
            let owns = &substates[i].2.owns;
            let m: usize = owns.len();
            let mut k: usize = 0;
            while k < m
                invariant
                    k <= m,
                    i < total,
                    m == owns@.len(),
                    owns@ == substates@[i as int].2.owns@,
                    all_owns@ =~= batch_owns(substates@.take(i as int)) + owns@.take(k as int),
                decreases m - k,
            {
                all_owns.push(owns[k]);
                proof {
                    assert(owns@.take(k + 1) =~= owns@.take(k as int).push(owns@[k as int]));
                }
                k = k + 1;
            }
            proof {
                let t1 = substates@.take(i + 1);
                assert(t1.drop_last() =~= substates@.take(i as int));
                assert(t1.last() == substates@[i as int]);
                assert(owns@.take(m as int) =~= owns@);
            }
            i = i + 1;
        }
        proof {
            assert(substates@.take(total as int) =~= substates@);
        }

        // Take the nested nodes; a failure leaves everything unchanged.
        match self.take_all(&all_owns) {
            Ok(_) => {},
            Err(e) => {
                return Err(
                    CreateNodeError::ProcessSubstateError(ProcessSubstateError::TakeNodeError(e)),
                );
            },
        }
        let ghost after_take = *self;

        // Materialize the node in the heap.
        let mut entries: Vec<(SubstateId, SubstateValue)> = Vec::new();
        let mut substates = substates;
        let ghost subs = substates@;
        while substates.len() > 0
            invariant
                substates@.len() <= subs.len(),
                substates@ =~= subs.skip(subs.len() - substates@.len()),
                entries@.len() == subs.len() - substates@.len(),
                forall|p: int|
                    0 <= p < entries@.len() ==> #[trigger] entries@[p] == (
                    SubstateId { node_id, partition: subs[p].0, key: subs[p].1 },
                    subs[p].2,
                    ),
            decreases substates@.len(),
        {
            let ghost done = subs.len() - substates@.len();
            let (p, k, v) = substates.remove(0);
            proof {
                assert((p, k, v) == subs[done]);
                assert(substates@ =~= subs.skip(done + 1));
            }
            entries.push((SubstateId::new(node_id, p, k), v));
        }
        proof {
            assert(forall|p: int, q: int|
                0 <= p < q < entries@.len() ==> (#[trigger] entries@[p]).0 != (
                #[trigger] entries@[q]).0) by {
                assert(forall|p: int, q: int|
                    0 <= p < q < subs.len() ==> ((#[trigger] subs[p]).0, subs[p].1) != ((
                    #[trigger] subs[q]).0, subs[q].1));
            }
        }
        let ghost eseq = entries@;
        heap.insert_node(node_id, entries);
        proof {
            assert forall|i: int| 0 <= i < subs.len() implies #[trigger] heap.spec_get(
                SubstateId { node_id, partition: subs[i].0, key: subs[i].1 },
            ) == Some(subs[i].2) by {
                crate::heap::lemma_sub_index(eseq, i);
                assert(eseq[i].0 == SubstateId { node_id, partition: subs[i].0, key: subs[i].1 });
                assert(heap.spec_get(eseq[i].0) == crate::heap::sub_get(eseq, eseq[i].0));
            }
        }
        self.owned.push(node_id);
        proof {
            let aft = after_take.owned@;
            let ow1 = self.owned@;
            assert(ow1 =~= aft.push(node_id));
            assert(ow1[aft.len() as int] == node_id);
            assert(all_owns@ =~= batch_owns(subs));
            assert(!after_take.spec_owns(node_id)) by {
                assert(!old(self).spec_owns(node_id));
            }
            assert(!old(self).spec_borrowed(node_id));
            assert(self.wf()) by {
                assert forall|a: int, b: int| 0 <= a < b < ow1.len() implies ow1[a] != ow1[b] by {
                    if b == aft.len() as int {
                        if ow1[a] == node_id {
                            assert(aft[a] == node_id);
                            assert(after_take.spec_owns(node_id));
                        }
                    } else {
                        assert(ow1[a] == aft[a] && ow1[b] == aft[b]);
                    }
                }
                assert forall|p: int, n2: NodeId|
                    0 <= p < self.opened@.len() && #[trigger] kids(self.opened@[p]).contains(n2)
                        implies !self.spec_owns(n2) by {
                    assert(kids(after_take.opened@[p]).contains(n2));
                    assert(!after_take.spec_owns(n2));
                    assert(after_take.spec_borrowed(n2)) by {
                        assert(refs_node(after_take.opened@[p], n2));
                    }
                    assert(old(self).spec_borrowed(n2));
                    assert(n2 != node_id);
                    if self.spec_owns(n2) {
                        let q = choose|q: int| 0 <= q < ow1.len() && ow1[q] == n2;
                        if q < aft.len() as int {
                            assert(aft[q] == n2);
                            assert(after_take.spec_owns(n2));
                        } else {
                            assert(ow1[q] == node_id);
                        }
                    }
                }
            }
            assert forall|m: NodeId|
                #[trigger] self.spec_owns(m) == ((old(self).spec_owns(m) && !batch_owns(
                    subs,
                ).contains(m)) || m == node_id) by {
                if m == node_id {
                } else {
                    assert(self.spec_owns(m) == after_take.spec_owns(m)) by {
                        if self.spec_owns(m) {
                            let q = choose|q: int| 0 <= q < ow1.len() && ow1[q] == m;
                            assert(q < aft.len() as int);
                            assert(aft[q] == m);
                        }
                        if after_take.spec_owns(m) {
                            let q = choose|q: int| 0 <= q < aft.len() && aft[q] == m;
                            assert(ow1[q] == m);
                        }
                    }
                    assert(after_take.spec_owns(m) == (old(self).spec_owns(m)
                        && !all_owns@.contains(m)));
                }
            }
        }
        Ok(())
    }

    /// Takes a whole node out of the frame and the heap, yielding its
    /// substates.  The same borrow rule applies: a node with any open
    /// substate cannot be removed.
    pub fn remove_node(&mut self, heap: &mut Heap, node: NodeId) -> (r: Result<
        Vec<(SubstateId, SubstateValue)>,
        TakeNodeError,
    >)
        requires
            old(self).wf(),
            old(heap).wf(),
        ensures
            final(self).wf(),
            final(heap).wf(),
            match old(self).spec_take_error(node) {
                Some(e) => r == Err::<Vec<(SubstateId, SubstateValue)>, TakeNodeError>(e)
                    && *final(self) == *old(self) && *final(heap) == *old(heap),
                None => {
                    &&& r is Ok
                    &&& !final(heap).spec_has_node(node)
                    &&& (old(heap).spec_has_node(node) ==> r->Ok_0@ == old(
                        heap,
                    ).spec_node_substates(node))
                    &&& (forall|n2: NodeId|
                        n2 != node ==> #[trigger] final(heap).spec_has_node(n2) == old(
                            heap,
                        ).spec_has_node(n2))
                    &&& (forall|id: SubstateId|
                        id.node_id != node ==> #[trigger] final(heap).spec_get(id) == old(
                            heap,
                        ).spec_get(id))
                    &&& (forall|id: SubstateId|
                        id.node_id == node ==> #[trigger] final(heap).spec_get(id) is None)
                    &&& !final(self).spec_owns(node)
                    &&& final(self).owned@ == old(self).owned@.remove_value(node)
                    &&& final(self).owned@.len() == old(self).owned@.len() - 1
                    &&& final(heap).nodes@.len() <= old(heap).nodes@.len()
                    &&& (forall|m: NodeId|
                        m != node ==> #[trigger] final(self).spec_owns(m) == old(self).spec_owns(
                            m,
                        ))
                    &&& *final(self) == (CallFrame { owned: final(self).owned, ..*old(self) })
                },
            },
    {
        match self.take_node_internal(node) {
            Ok(_) => {},
            Err(e) => {
                return Err(e);
            },
        }
        Ok(heap.remove_node(node))
    }

    /// Builds the frame for a callee: the listed nodes move from the
    /// caller to the callee, and the listed references are copied down.
    /// Moving a borrowed node is rejected, and the caller is unchanged
    /// on any failure.
    #[verifier::loop_isolation(false)]
    pub fn new_child_from_parent(
        parent: &mut CallFrame,
        nodes: Vec<NodeId>,
        refs: Vec<(NodeId, VisibilityOrigin)>,
    ) -> (r: Result<CallFrame, CreateFrameError>)
        requires
            old(parent).wf(),
            old(parent).depth < usize::MAX,
        ensures
            final(parent).wf(),
            ({
                let ref_err = spec_first_invisible_ref(*old(parent), refs@, 0);
                match ref_err {
                    Some(n) => r == Err::<CallFrame, CreateFrameError>(
                        CreateFrameError::PassMessageError(PassMessageError::RefNotVisible(n)),
                    ) && *final(parent) == *old(parent),
                    None => match old(parent).spec_take_all_error(nodes@, 0) {
                        Some(e) => r == Err::<CallFrame, CreateFrameError>(
                            CreateFrameError::PassMessageError(PassMessageError::TakeNodeError(e)),
                        ) && *final(parent) == *old(parent),
                        None => {
                            &&& r is Ok
                            &&& (forall|m: NodeId|
                                #[trigger] final(parent).spec_owns(m) == (old(parent).spec_owns(m)
                                    && !nodes@.contains(m)))
                            &&& *final(parent) == (CallFrame {
                                owned: final(parent).owned,
                                ..*old(parent)
                            })
                            &&& ({
                                let child = r->Ok_0;
                                &&& child.wf()
                                &&& child.depth == old(parent).depth + 1
                                &&& child.owned@ == nodes@
                                &&& child.stable_refs@ == refs@
                                &&& child.opened@ =~= Seq::<OpenedSubstate>::empty()
                            })
                        },
                    },
                }
            }),
    {
        let rcount: usize = refs.len();
        let mut ri: usize = 0;
        while ri < rcount
            invariant
                ri <= rcount,
                spec_first_invisible_ref(*parent, refs@, 0) == spec_first_invisible_ref(
                    *parent,
                    refs@,
                    ri as int,
                ),
            decreases rcount - ri,
        {
            if !parent.is_visible(refs[ri].0) {
                return Err(
                    CreateFrameError::PassMessageError(PassMessageError::RefNotVisible(refs[ri].0)),
                );
            }
            ri = ri + 1;
        }
        match parent.take_all(&nodes) {
            Ok(_) => {},
            Err(e) => {
                return Err(CreateFrameError::PassMessageError(PassMessageError::TakeNodeError(e)));
            },
        }
        let depth = parent.depth + 1;
        let ghost nseq = nodes@;
        let child = CallFrame {
            depth,
            owned: nodes,
            stable_refs: refs,
            opened: Vec::new(),
            next_handle: 0,
        };
        proof {
            old(parent).lemma_take_all_ok(nseq, 0);
            assert(child.wf());
        }
        Ok(child)
    }

    /// At frame pop, moves the listed nodes from the finished callee up
    /// to the caller.  The same borrow rule applies in the callee, and a
    /// node the caller can already see is rejected.
    #[verifier::loop_isolation(false)]
    pub fn update_upstream(
        child: &mut CallFrame,
        parent: &mut CallFrame,
        nodes: Vec<NodeId>,
    ) -> (r: Result<(), PassMessageError>)
        requires
            old(child).wf(),
            old(parent).wf(),
        ensures
            final(child).wf(),
            final(parent).wf(),
            ({
                let vis_err = spec_first_visible_node(*old(parent), nodes@, 0);
                match vis_err {
                    Some(n) => r == Err::<(), PassMessageError>(
                        PassMessageError::NodeAlreadyVisible(n),
                    ) && *final(child) == *old(child) && *final(parent) == *old(parent),
                    None => match old(child).spec_take_all_error(nodes@, 0) {
                        Some(e) => r == Err::<(), PassMessageError>(
                            PassMessageError::TakeNodeError(e),
                        ) && *final(child) == *old(child) && *final(parent) == *old(parent),
                        None => {
                            &&& r is Ok
                            &&& (forall|m: NodeId|
                                #[trigger] final(child).spec_owns(m) == (old(child).spec_owns(m)
                                    && !nodes@.contains(m)))
                            &&& *final(child) == (CallFrame {
                                owned: final(child).owned,
                                ..*old(child)
                            })
                            &&& final(parent).owned@ == old(parent).owned@ + nodes@
                            &&& *final(parent) == (CallFrame {
                                owned: final(parent).owned,
                                ..*old(parent)
                            })
                        },
                    },
                }
            }),
    {
        let vcount: usize = nodes.len();
        let mut vi: usize = 0;
        while vi < vcount
            invariant
                vi <= vcount,
                spec_first_visible_node(*parent, nodes@, 0) == spec_first_visible_node(
                    *parent,
                    nodes@,
                    vi as int,
                ),
            decreases vcount - vi,
        {
            if parent.is_visible(nodes[vi]) {
                return Err(PassMessageError::NodeAlreadyVisible(nodes[vi]));
            }
            vi = vi + 1;
        }
        match child.take_all(&nodes) {
            Ok(_) => {},
            Err(e) => {
                return Err(PassMessageError::TakeNodeError(e));
            },
        }
        proof {
            old(child).lemma_take_all_ok(nodes@, 0);
            lemma_first_visible_none(*old(parent), nodes@, 0);
        }
        let total: usize = nodes.len();
        let mut i: usize = 0;
        while i < total
            invariant
                i <= total,
                parent.owned@ =~= old(parent).owned@ + nodes@.take(i as int),
                *parent == (CallFrame { owned: parent.owned, ..*old(parent) }),
            decreases total - i,
        {
            parent.owned.push(nodes[i]);
            proof {
                assert(nodes@.take(i + 1) =~= nodes@.take(i as int).push(nodes@[i as int]));
            }
            i = i + 1;
        }
        proof {
            assert(nodes@.take(total as int) =~= nodes@);
            assert(parent.wf()) by {
                let ow0 = old(parent).owned@;
                let ow1 = parent.owned@;
                assert forall|a: int, b: int| 0 <= a < b < ow1.len() implies ow1[a] != ow1[b] by {
                    if b >= ow0.len() {
                        assert(ow1[b] == nodes@[b - ow0.len()]);
                        assert(!old(parent).spec_visible(nodes@[b - ow0.len()]));
                        if a >= ow0.len() {
                            assert(ow1[a] == nodes@[a - ow0.len()]);
                        } else {
                            assert(ow1[a] == ow0[a]);
                            if ow1[a] == ow1[b] {
                                assert(old(parent).spec_owns(ow1[b]));
                            }
                        }
                    }
                }
                assert forall|p: int, n2: NodeId|
                    0 <= p < parent.opened@.len() && #[trigger] kids(parent.opened@[p]).contains(
                        n2,
                    ) implies !parent.spec_owns(n2) by {
                    assert(kids(old(parent).opened@[p]).contains(n2));
                    assert(!old(parent).spec_owns(n2));
                    assert(old(parent).spec_borrowed(n2)) by {
                        assert(refs_node(old(parent).opened@[p], n2));
                    }
                    if parent.spec_owns(n2) {
                        let q = choose|q: int| 0 <= q < ow1.len() && ow1[q] == n2;
                        if q < ow0.len() {
                            assert(ow0[q] == n2);
                        } else {
                            assert(nodes@[q - ow0.len()] == n2);
                            assert(!old(parent).spec_visible(n2));
                        }
                    }
                }
            }
        }
        Ok(())
    }

    /// In a well-formed frame, the newest open substate never hits a
    /// borrow conflict on close: whatever borrows one of its children
    /// carries a larger handle, and no larger handle exists.
    pub proof fn lemma_last_closes_without_borrow(self, k: int)
        requires
            self.wf(),
            self.opened@.len() > 0,
            0 <= k,
        ensures
            self.spec_close_borrow_error(self.opened@.len() - 1, k) is None,
        decreases kids(self.opened@[self.opened@.len() - 1]).len() - k,
    {
        let idx = self.opened@.len() - 1;
        let ks = kids(self.opened@[idx]);
        if k < ks.len() {
            assert(!self.spec_borrowed_by_other(idx, ks[k])) by {
                if self.spec_borrowed_by_other(idx, ks[k]) {
                    let j = choose|j: int|
                        0 <= j < self.opened@.len() && j != idx && refs_node(
                            #[trigger] self.opened@[j],
                            ks[k],
                        );
                    assert(j < idx);
                    assert(self.opened@[j].handle < self.opened@[idx].handle);
                    if self.opened@[j].substate_id.node_id == ks[k] {
                        assert(kids(self.opened@[idx]).contains(ks[k]));
                        assert(self.opened@[j].handle > self.opened@[idx].handle);
                    } else {
                        assert(kids(self.opened@[j]).contains(ks[k]));
                        assert(kids(self.opened@[idx]).contains(ks[k]));
                    }
                }
            }
            self.lemma_last_closes_without_borrow(k + 1);
        }
    }

    /// Closes every open substate, newest first: the cleanup net the
    /// kernel applies when an execution returns.
    /// Whether every store lock this frame holds is live in the overlay
    /// and no store substate is held twice, so that releasing them all,
    /// newest first, is owed to succeed.
    pub open spec fn spec_store_locks_releasable(self, track: Track) -> bool {
        &&& forall|i: int|
            0 <= i < self.opened@.len() && (#[trigger] self.opened@[i]).in_store ==> track
                .spec_lock(self.opened@[i].substate_id) != LockState::Free
        &&& forall|i: int, j: int|
            0 <= i < j < self.opened@.len() && (#[trigger] self.opened@[i]).in_store && (
            #[trigger] self.opened@[j]).in_store ==> self.opened@[i].substate_id
                != self.opened@[j].substate_id
    }

    #[verifier::loop_isolation(false)]
    pub fn drop_all_locks(&mut self, track: &mut Track) -> (r: Result<(), CloseSubstateError>)
        requires
            old(self).wf(),
            old(track).wf(),
        ensures
            final(self).wf(),
            final(track).wf(),
            final(track).store == old(track).store,
            forall|id2: SubstateId|
                #[trigger] final(track).spec_get_v(id2) == old(track).spec_get_v(id2),
            r is Ok ==> final(self).opened@.len() == 0,
            r matches Err(e) ==> e matches CloseSubstateError::TrackError(_),
            old(self).spec_store_locks_releasable(*old(track)) ==> r is Ok,
            forall|m: NodeId|
                old(self).spec_owns(m) ==> #[trigger] final(self).spec_owns(m),
            final(self).stable_refs == old(self).stable_refs,
            final(self).depth == old(self).depth,
    {
        let ghost cond = old(self).spec_store_locks_releasable(*old(track));
        while self.opened.len() > 0
            invariant
                self.wf(),
                track.wf(),
                track.store == old(track).store,
                forall|id2: SubstateId|
                    #[trigger] track.spec_get_v(id2) == old(track).spec_get_v(id2),
                self.opened@.len() <= old(self).opened@.len(),
                self.opened@ =~= old(self).opened@.take(self.opened@.len() as int),
                cond == old(self).spec_store_locks_releasable(*old(track)),
                cond ==> forall|i: int|
                    0 <= i < self.opened@.len() && (#[trigger] self.opened@[i]).in_store ==> track
                        .spec_lock(self.opened@[i].substate_id) != LockState::Free,
                forall|m: NodeId| old(self).spec_owns(m) ==> #[trigger] self.spec_owns(m),
                self.stable_refs == old(self).stable_refs,
                self.depth == old(self).depth,
            decreases self.opened@.len(),
        {
            let last: usize = self.opened.len() - 1;
            let handle = self.opened[last].handle;
            proof {
                self.lemma_opened_index(last as int);
                self.lemma_last_closes_without_borrow(0);
            }
            let ghost pre = *self;
            let ghost pre_track = *track;
            match self.close_substate(track, handle) {
                Ok(_) => {
                    proof {
                        assert(self.opened@ =~= pre.opened@.remove(
                            pre.spec_opened_index(handle),
                        ));
                        assert(self.opened@ =~= pre.opened@.take(pre.opened@.len() - 1));
                        assert(pre.opened@.len() <= old(self).opened@.len());
                        assert(forall|j: int|
                            0 <= j < pre.opened@.len() ==> #[trigger] pre.opened@[j] == old(
                                self,
                            ).opened@[j]);
                        assert(self.opened@ =~= old(self).opened@.take(
                            self.opened@.len() as int,
                        ));
                        assert forall|m: NodeId|
                            pre.spec_owns(m) implies #[trigger] self.spec_owns(m) by {
                            let q = choose|q: int|
                                0 <= q < pre.owned@.len() && pre.owned@[q] == m;
                            assert(self.owned@[q] == m);
                        }
                        if cond {
                            assert forall|i: int|
                                0 <= i < self.opened@.len() && (
                            #[trigger] self.opened@[i]).in_store implies track.spec_lock(
                                self.opened@[i].substate_id,
                            ) != LockState::Free by {
                                assert(self.opened@[i] == pre.opened@[i]);
                                assert(i < old(self).opened@.len());
                                assert(self.opened@[i] == old(self).opened@[i]);
                                if pre.opened@[last as int].in_store {
                                    assert(old(self).opened@[last as int].in_store) by {
                                        assert(pre.opened@[last as int] == old(self).opened@[
                                            last as int]);
                                    }
                                    assert(self.opened@[i].substate_id != pre.opened@[
                                        last as int].substate_id);
                                    assert(track.spec_lock(self.opened@[i].substate_id)
                                        == pre_track.spec_lock(self.opened@[i].substate_id));
                                } else {
                                    assert(*track == pre_track);
                                }
                            }
                        }
                    }
                },
                Err(e) => {
                    proof {
                        assert(e matches CloseSubstateError::TrackError(_)) by {
                            assert(pre.spec_close_borrow_error(last as int, 0) is None);
                        }
                        if cond {
                            assert(pre.opened@[last as int].in_store);
                            assert(pre_track.spec_lock(pre.opened@[last as int].substate_id)
                                != LockState::Free);
                            assert(false);
                        }
                    }
                    return Err(e);
                },
            }
        }
        proof {
            assert(old(self).opened@.take(0) =~= Seq::<OpenedSubstate>::empty());
        }
        Ok(())
    }

    /// The first failing source of a partition move, if any: the same
    /// borrow rule as every other move path, surfaced per source node.
    pub open spec fn spec_move_sources_error(
        self,
        heap: Heap,
        moves: Seq<(PartitionNumber, (NodeId, PartitionNumber))>,
        k: int,
    ) -> Option<MovePartitionError>
        decreases moves.len() - k,
    {
        if k < 0 || k >= moves.len() {
            None
        } else {
            let src = moves[k].1.0;
            if self.spec_borrowed(src) {
                Some(MovePartitionError::SubstateBorrowed(src))
            } else if !self.spec_owns(src) || !heap.spec_has_node(src) {
                Some(MovePartitionError::NodeNotAvailable(src))
            } else {
                self.spec_move_sources_error(heap, moves, k + 1)
            }
        }
    }

    /// The error a `create_node_from` call yields, if any.
    pub open spec fn spec_create_node_from_error(
        self,
        heap: Heap,
        node_id: NodeId,
        moves: Seq<(PartitionNumber, (NodeId, PartitionNumber))>,
    ) -> Option<MovePartitionError> {
        if heap.spec_has_node(node_id) || self.spec_visible(node_id) {
            Some(MovePartitionError::NodeAlreadyExists(node_id))
        } else {
            self.spec_move_sources_error(heap, moves, 0)
        }
    }

    /// When the source check passes from `k`, every listed source from
    /// `k` on is an unborrowed, heap-resident owned root.
    pub proof fn lemma_move_sources_ok(
        self,
        heap: Heap,
        moves: Seq<(PartitionNumber, (NodeId, PartitionNumber))>,
        k: int,
    )
        requires
            0 <= k,
            self.spec_move_sources_error(heap, moves, k) is None,
        ensures
            forall|i: int|
                k <= i < moves.len() ==> !self.spec_borrowed((#[trigger] moves[i]).1.0)
                    && self.spec_owns(moves[i].1.0) && heap.spec_has_node(moves[i].1.0),
        decreases moves.len() - k,
    {
        if k < moves.len() {
            self.lemma_move_sources_ok(heap, moves, k + 1);
        }
    }

    /// Creates a brand-new node whose listed partitions are re-parented
    /// wholesale from existing owned nodes.  The same borrow rule as
    /// every other move applies to each source node.
    #[verifier::loop_isolation(false)]
    pub fn create_node_from(
        &mut self,
        heap: &mut Heap,
        node_id: NodeId,
        moves: Vec<(PartitionNumber, (NodeId, PartitionNumber))>,
    ) -> (r: Result<(), MovePartitionError>)
        requires
            old(self).wf(),
            old(heap).wf(),
            forall|i: int, j: int|
                0 <= i < j < moves@.len() ==> (#[trigger] moves@[i]).0 != (#[trigger] moves@[j]).0,
            forall|i: int, j: int|
                0 <= i < j < moves@.len() ==> (#[trigger] moves@[i]).1 != (#[trigger] moves@[j]).1,
        ensures
            final(self).wf(),
            final(heap).wf(),
            match old(self).spec_create_node_from_error(*old(heap), node_id, moves@) {
                Some(e) => r == Err::<(), MovePartitionError>(e) && *final(self) == *old(self)
                    && *final(heap) == *old(heap),
                None => {
                    &&& r is Ok
                    &&& final(heap).spec_has_node(node_id)
                    &&& final(self).spec_owns(node_id)
                    &&& (forall|i: int, k2: SubstateKey|
                        0 <= i < moves@.len() ==> #[trigger] final(heap).spec_get(
                            SubstateId {
                                node_id,
                                partition: moves@[i].0,
                                key: k2,
                            },
                        ) == old(heap).spec_get(
                            SubstateId {
                                node_id: moves@[i].1.0,
                                partition: moves@[i].1.1,
                                key: k2,
                            },
                        ))
                    &&& (forall|i: int, k2: SubstateKey|
                        0 <= i < moves@.len() ==> #[trigger] final(heap).spec_get(
                            SubstateId {
                                node_id: moves@[i].1.0,
                                partition: moves@[i].1.1,
                                key: k2,
                            },
                        ) is None)
                    &&& final(self).opened == old(self).opened
                    &&& final(self).stable_refs == old(self).stable_refs
                    &&& final(self).depth == old(self).depth
                    &&& final(self).next_handle == old(self).next_handle
                    &&& (forall|m: NodeId|
                        m != node_id ==> #[trigger] final(self).spec_owns(m) == old(
                            self,
                        ).spec_owns(m))
                },
            },
    {
        if heap.contains_node(node_id) || self.is_visible(node_id) {
            return Err(MovePartitionError::NodeAlreadyExists(node_id));
        }
        let total: usize = moves.len();
        let mut k: usize = 0;
        while k < total
            invariant
                k <= total,
                self.spec_move_sources_error(*heap, moves@, 0) == self.spec_move_sources_error(
                    *heap,
                    moves@,
                    k as int,
                ),
            decreases total - k,
        {
            let src = moves[k].1.0;
            if self.is_borrowed(src) {
                return Err(MovePartitionError::SubstateBorrowed(src));
            }
            if !self.owns(src) || !heap.contains_node(src) {
                return Err(MovePartitionError::NodeNotAvailable(src));
            }
            k = k + 1;
        }
        proof {
            old(self).lemma_move_sources_ok(*old(heap), moves@, 0);
        }

        // Materialize the new node, empty, then re-parent the listed
        // partitions into it one by one.
        heap.insert_node(node_id, Vec::new());
        self.owned.push(node_id);
        proof {
            let ow0 = old(self).owned@;
            let ow1 = self.owned@;
            assert(ow1[ow0.len() as int] == node_id);
            assert(self.wf()) by {
                assert forall|a: int, b: int| 0 <= a < b < ow1.len() implies ow1[a] != ow1[b] by {
                    if b == ow0.len() as int {
                        if ow1[a] == node_id {
                            assert(ow0[a] == node_id);
                            assert(old(self).spec_owns(node_id));
                        }
                    }
                }
                assert forall|p: int, n2: NodeId|
                    0 <= p < self.opened@.len() && #[trigger] kids(self.opened@[p]).contains(n2)
                        implies !self.spec_owns(n2) by {
                    assert(kids(old(self).opened@[p]).contains(n2));
                    assert(!old(self).spec_owns(n2));
                    assert(old(self).spec_borrowed(n2)) by {
                        assert(refs_node(old(self).opened@[p], n2));
                    }
                    assert(n2 != node_id);
                    if self.spec_owns(n2) {
                        let q = choose|q: int| 0 <= q < ow1.len() && ow1[q] == n2;
                        assert(q < ow0.len());
                        assert(ow0[q] == n2);
                    }
                }
            }
        }
        let ghost heap1 = *heap;
        let mut k2: usize = 0;
        while k2 < total
            invariant
                k2 <= total,
                heap.wf(),
                heap.spec_has_node(node_id),
                forall|n2: NodeId|
                    #[trigger] heap.spec_has_node(n2) == heap1.spec_has_node(n2),
                forall|i: int, kk: SubstateKey|
                    0 <= i < k2 ==> #[trigger] heap.spec_get(
                        SubstateId { node_id, partition: moves@[i].0, key: kk },
                    ) == old(heap).spec_get(
                        SubstateId { node_id: moves@[i].1.0, partition: moves@[i].1.1, key: kk },
                    ),
                forall|i: int, kk: SubstateKey|
                    0 <= i < k2 ==> #[trigger] heap.spec_get(
                        SubstateId { node_id: moves@[i].1.0, partition: moves@[i].1.1, key: kk },
                    ) is None,
                forall|id: SubstateId|
                    id.node_id == node_id && !(exists|i: int|
                        0 <= i < k2 && (#[trigger] moves@[i]).0 == id.partition)
                        ==> #[trigger] heap.spec_get(id) is None,
                forall|id: SubstateId|
                    id.node_id != node_id && !(exists|i: int|
                        0 <= i < k2 && (#[trigger] moves@[i]).1.0 == id.node_id && moves@[i].1.1
                            == id.partition) ==> #[trigger] heap.spec_get(id) == old(
                        heap,
                    ).spec_get(id),
            decreases total - k2,
        {
            let ghost pre = *heap;
            let mv = moves[k2];
            let src = mv.1.0;
            let src_p = mv.1.1;
            let dst_p = mv.0;
            proof {
                assert(heap.spec_has_node(src)) by {
                    assert(heap1.spec_has_node(src));
                }
                assert(src != node_id) by {
                    assert(old(self).spec_owns(src));
                    assert(!old(self).spec_visible(node_id));
                }
                assert forall|kk: SubstateKey|
                    #[trigger] heap.spec_get(
                        SubstateId { node_id, partition: dst_p, key: kk },
                    ) is None by {
                    assert(!(exists|i: int|
                        0 <= i < k2 && (#[trigger] moves@[i]).0 == dst_p)) by {
                        if exists|i: int| 0 <= i < k2 && (#[trigger] moves@[i]).0 == dst_p {
                            let i = choose|i: int|
                                0 <= i < k2 && (#[trigger] moves@[i]).0 == dst_p;
                            assert(moves@[i].0 != moves@[k2 as int].0);
                        }
                    }
                }
            }
            heap.move_partition(src, src_p, node_id, dst_p);
            proof {
                assert forall|i: int, kk: SubstateKey| 0 <= i < k2 + 1 implies #[trigger] heap
                    .spec_get(SubstateId { node_id, partition: moves@[i].0, key: kk }) == old(
                    heap,
                ).spec_get(
                    SubstateId { node_id: moves@[i].1.0, partition: moves@[i].1.1, key: kk },
                ) by {
                    if i < k2 {
                        assert(moves@[i].0 != dst_p);
                        assert(pre.spec_get(
                            SubstateId { node_id, partition: moves@[i].0, key: kk },
                        ) == old(heap).spec_get(
                            SubstateId {
                                node_id: moves@[i].1.0,
                                partition: moves@[i].1.1,
                                key: kk,
                            },
                        ));
                    } else {
                        assert(pre.spec_get(
                            SubstateId { node_id: src, partition: src_p, key: kk },
                        ) == old(heap).spec_get(
                            SubstateId { node_id: src, partition: src_p, key: kk },
                        )) by {
                            assert(!(exists|j: int|
                                0 <= j < k2 && (#[trigger] moves@[j]).1.0 == src && moves@[j].1.1
                                    == src_p)) by {
                                if exists|j: int|
                                    0 <= j < k2 && (#[trigger] moves@[j]).1.0 == src
                                        && moves@[j].1.1 == src_p {
                                    let j = choose|j: int|
                                        0 <= j < k2 && (#[trigger] moves@[j]).1.0 == src
                                            && moves@[j].1.1 == src_p;
                                    assert(moves@[j].1 != moves@[k2 as int].1);
                                    assert(moves@[j].1.0 == moves@[k2 as int].1.0);
                                    assert(moves@[j].1.1 == moves@[k2 as int].1.1);
                                }
                            }
                        }
                    }
                }
                assert forall|i: int, kk: SubstateKey| 0 <= i < k2 + 1 implies #[trigger] heap
                    .spec_get(
                    SubstateId { node_id: moves@[i].1.0, partition: moves@[i].1.1, key: kk },
                ) is None by {
                    if i < k2 {
                        if moves@[i].1.0 == node_id {
                        } else if moves@[i].1.0 == src && moves@[i].1.1 == src_p {
                        } else {
                        }
                    }
                }
            }
            k2 = k2 + 1;
        }
        proof {
            let ow0 = old(self).owned@;
            let ow1 = self.owned@;
            assert(self.spec_owns(node_id)) by {
                assert(ow1[ow0.len() as int] == node_id);
            }
            assert forall|m: NodeId| m != node_id implies #[trigger] self.spec_owns(m) == old(
                self,
            ).spec_owns(m) by {
                if self.spec_owns(m) {
                    let q = choose|q: int| 0 <= q < ow1.len() && ow1[q] == m;
                    assert(q < ow0.len());
                    assert(ow0[q] == m);
                }
                if old(self).spec_owns(m) {
                    let q = choose|q: int| 0 <= q < ow0.len() && ow0[q] == m;
                    assert(ow1[q] == m);
                }
            }
        }
        Ok(())
    }
}

/// Whether an open substate's borrowed children are pairwise distinct.
pub open spec fn kids_unique(o: OpenedSubstate) -> bool {
    forall|i: int, j: int| 0 <= i < j < kids(o).len() ==> kids(o)[i] != kids(o)[j]
}

/// Whether `v` holds the node `n`.
pub fn node_list_contains(v: &Vec<NodeId>, n: NodeId) -> (r: bool)
    ensures
        r == v@.contains(n),
{
    let count: usize = v.len();
    let mut i: usize = 0;
    while i < count
        invariant
            i <= count,
            count == v@.len(),
            forall|j: int| 0 <= j < i ==> v@[j] != n,
        decreases count - i,
    {
        if v[i] == n {
            return true;
        }
        i = i + 1;
    }
    false
}


/// The kids of the rewritten open substate are drawn from the old kids
/// and the freshly taken nodes.
proof fn lemma_write_kids_shape(
    opened: Seq<OpenedSubstate>,
    idx: int,
    on: OpenedSubstate,
    owns: Seq<NodeId>,
    n2: NodeId,
)
    requires
        0 <= idx < opened.len(),
        on.owned_children@ == owns,
        on.detached_children@ == opened[idx].detached_children@
            + opened[idx].owned_children@.filter(|n: NodeId| !owns.contains(n)),
    ensures
        kids(on).contains(n2) ==> kids(opened[idx]).contains(n2) || (owns.contains(n2) && !(
        opened[idx].owned_children@.contains(n2))),
        kids(opened[idx]).contains(n2) && !kids(on).contains(n2) ==> opened[
            idx
        ].owned_children@.contains(n2),
{
    let oo = opened[idx];
    let removedf = oo.owned_children@.filter(|n: NodeId| !owns.contains(n));
    if kids(on).contains(n2) {
        let k = choose|k: int| 0 <= k < kids(on).len() && kids(on)[k] == n2;
        if k < owns.len() {
            assert(owns[k] == n2);
            if oo.owned_children@.contains(n2) {
                let m = choose|m: int|
                    0 <= m < oo.owned_children@.len() && oo.owned_children@[m] == n2;
                assert(kids(oo)[m] == n2);
                assert(kids(oo).contains(n2));
            }
        } else {
            let k2 = k - owns.len();
            assert(on.detached_children@[k2] == n2);
            if k2 < oo.detached_children@.len() {
                assert(kids(oo)[oo.owned_children@.len() + k2] == n2);
                assert(kids(oo).contains(n2));
            } else {
                assert(removedf[k2 - oo.detached_children@.len()] == n2);
                lemma_filter_subset_nodes(
                    oo.owned_children@,
                    |n: NodeId| !owns.contains(n),
                    k2 - oo.detached_children@.len(),
                );
                assert(oo.owned_children@.contains(n2));
                let m = choose|m: int|
                    0 <= m < oo.owned_children@.len() && oo.owned_children@[m] == n2;
                assert(kids(oo)[m] == n2);
                assert(kids(oo).contains(n2));
            }
        }
    }
    if kids(oo).contains(n2) && !kids(on).contains(n2) {
        let k = choose|k: int| 0 <= k < kids(oo).len() && kids(oo)[k] == n2;
        if k < oo.owned_children@.len() {
            assert(oo.owned_children@[k] == n2);
        } else {
            let k2 = k - oo.owned_children@.len();
            assert(oo.detached_children@[k2] == n2);
            assert(on.detached_children@[k2] == n2);
            assert(kids(on)[owns.len() + k2] == n2);
            assert(kids(on).contains(n2));
        }
    }
}

/// The kids of the rewritten open substate are pairwise distinct.
proof fn lemma_write_kids_unique(
    oo: OpenedSubstate,
    on: OpenedSubstate,
    owns: Seq<NodeId>,
    frame: CallFrame,
    old_children: Seq<NodeId>,
)
    requires
        kids_unique(oo),
        old_children == oo.owned_children@,
        on.owned_children@ == owns,
        on.detached_children@ == oo.detached_children@ + oo.owned_children@.filter(
            |n: NodeId| !owns.contains(n),
        ),
        frame.spec_write_take_error(old_children, owns, 0) is None,
        forall|i: int|
            0 <= i < owns.len() && !old_children.contains(#[trigger] owns[i]) ==> !frame
                .spec_borrowed(owns[i]),
        forall|i: int, j: int|
            0 <= j < i < owns.len() ==> #[trigger] owns[j] != #[trigger] owns[i],
        exists|oi: int|
            0 <= oi < frame.opened@.len() && frame.opened@[oi] == oo,
    ensures
        kids_unique(on),
{
    let pred = |n: NodeId| !owns.contains(n);
    let removedf = oo.owned_children@.filter(pred);
    oo.owned_children@.filter_lemma(pred);
    let oi = choose|oi: int| 0 <= oi < frame.opened@.len() && frame.opened@[oi] == oo;
    assert forall|a: int, b: int| 0 <= a < b < kids(on).len() implies kids(on)[a] != kids(
        on,
    )[b] by {
        let la = kids(on)[a];
        let lb = kids(on)[b];
        let ol = owns.len() as int;
        let dl = oo.detached_children@.len() as int;
        if b < ol {
            // both are newly listed owns: distinct by the write check
        } else if a < ol {
            // `a` is a listed own, `b` a detached child (old or removed)
            let b2 = b - ol;
            assert(on.detached_children@[b2] == lb);
            if b2 < dl {
                assert(oo.detached_children@[b2] == lb);
                assert(kids(oo)[oo.owned_children@.len() + b2] == lb);
                assert(kids(oo).contains(lb));
                if la == lb {
                    // a listed own equal to an old detached child would be
                    // either kept (then it was an owned child, distinct
                    // from detached by the old uniqueness) or borrowed
                    if old_children.contains(la) {
                        let m = choose|m: int|
                            0 <= m < oo.owned_children@.len() && oo.owned_children@[m] == la;
                        assert(kids(oo)[m] == la);
                        assert(kids(oo)[m] != kids(oo)[oo.owned_children@.len() + b2]);
                    } else {
                        assert(!frame.spec_borrowed(la));
                        assert(refs_node(frame.opened@[oi], la)) by {
                            assert(kids(oo).contains(la));
                        }
                        assert(frame.spec_borrowed(la));
                    }
                }
            } else {
                assert(removedf[b2 - dl] == lb);
                assert(pred(lb));
                assert(!owns.contains(lb));
                if la == lb {
                    assert(owns[a] == la);
                    assert(owns.contains(la));
                }
            }
        } else {
            // both are detached children of the new entry
            let a2 = a - ol;
            let b2 = b - ol;
            assert(on.detached_children@[a2] == la);
            assert(on.detached_children@[b2] == lb);
            if b2 < dl {
                assert(kids(oo)[oo.owned_children@.len() + a2] == la);
                assert(kids(oo)[oo.owned_children@.len() + b2] == lb);
            } else if a2 < dl {
                assert(oo.detached_children@[a2] == la);
                assert(removedf[b2 - dl] == lb);
                lemma_filter_subset_nodes(oo.owned_children@, pred, b2 - dl);
                assert(oo.owned_children@.contains(lb));
                let m = choose|m: int|
                    0 <= m < oo.owned_children@.len() && oo.owned_children@[m] == lb;
                assert(kids(oo)[m] == lb);
                assert(kids(oo)[oo.owned_children@.len() + a2] == la);
                assert(kids(oo)[m] != kids(oo)[oo.owned_children@.len() + a2]);
            } else {
                // both removed: distinct positions of a filtered
                // duplicate-free list hold distinct values
                assert forall|p: int, q: int|
                    0 <= p < q < oo.owned_children@.len() implies oo.owned_children@[p]
                    != oo.owned_children@[q] by {
                    assert(kids(oo)[p] == oo.owned_children@[p]);
                    assert(kids(oo)[q] == oo.owned_children@[q]);
                }
                lemma_filter_unique_nodes(oo.owned_children@, pred, a2 - dl, b2 - dl);
            }
        }
    }
}

/// Every element of a filtered node list occurs in the source list.
proof fn lemma_filter_subset_nodes(all: Seq<NodeId>, pred: spec_fn(NodeId) -> bool, i: int)
    requires
        0 <= i < all.filter(pred).len(),
    ensures
        all.contains(all.filter(pred)[i]),
    decreases all.len(),
{
    reveal(Seq::filter);
    if all.len() > 0 {
        let rest = all.drop_last();
        let f = all.filter(pred);
        let frest = rest.filter(pred);
        if pred(all.last()) {
            assert(f == frest.push(all.last()));
            if i < f.len() - 1 {
                lemma_filter_subset_nodes(rest, pred, i);
                let k = choose|k: int| 0 <= k < rest.len() && rest[k] == frest[i];
                assert(all[k] == f[i]);
            } else {
                assert(all[all.len() - 1] == f[i]);
            }
        } else {
            assert(f == frest);
            lemma_filter_subset_nodes(rest, pred, i);
            let k = choose|k: int| 0 <= k < rest.len() && rest[k] == frest[i];
            assert(all[k] == f[i]);
        }
    }
}

/// Two positions of a filtered duplicate-free node list hold distinct
/// values.  The source list is duplicate-free because it is the kid list
/// of a well-formed open substate.
proof fn lemma_filter_unique_nodes(
    all: Seq<NodeId>,
    pred: spec_fn(NodeId) -> bool,
    i: int,
    j: int,
)
    requires
        forall|p: int, q: int| 0 <= p < q < all.len() ==> all[p] != all[q],
        0 <= i < j < all.filter(pred).len(),
    ensures
        all.filter(pred)[i] != all.filter(pred)[j],
    decreases all.len(),
{
    reveal(Seq::filter);
    if all.len() > 0 {
        let rest = all.drop_last();
        let f = all.filter(pred);
        let frest = rest.filter(pred);
        assert(forall|p: int, q: int| 0 <= p < q < rest.len() ==> rest[p] != rest[q]);
        if pred(all.last()) {
            assert(f == frest.push(all.last()));
            if j < f.len() - 1 {
                lemma_filter_unique_nodes(rest, pred, i, j);
            } else {
                lemma_filter_subset_nodes(rest, pred, i);
                let fi = frest[i];
                assert(rest.contains(fi));
                let k = choose|k: int| 0 <= k < rest.len() && rest[k] == fi;
                assert(all[k] == fi);
                assert(all[all.len() - 1] == all.last());
                assert(all[k] != all.last());
            }
        } else {
            assert(f == frest);
            lemma_filter_unique_nodes(rest, pred, i, j);
        }
    }
}


/// The owned nodes of a batch of substate values, in order.
pub open spec fn batch_owns(subs: Seq<(PartitionNumber, SubstateKey, SubstateValue)>) -> Seq<
    NodeId,
>
    decreases subs.len(),
{
    if subs.len() == 0 {
        Seq::empty()
    } else {
        batch_owns(subs.drop_last()) + subs.last().2.owns@
    }
}

/// The first listed reference the frame cannot see, if any.
pub open spec fn spec_first_invisible_ref(
    frame: CallFrame,
    refs: Seq<(NodeId, VisibilityOrigin)>,
    k: int,
) -> Option<NodeId>
    decreases refs.len() - k,
{
    if k < 0 || k >= refs.len() {
        None
    } else if !frame.spec_visible(refs[k].0) {
        Some(refs[k].0)
    } else {
        spec_first_invisible_ref(frame, refs, k + 1)
    }
}

/// The first listed node the frame can already see, if any.
pub open spec fn spec_first_visible_node(frame: CallFrame, nodes: Seq<NodeId>, k: int) -> Option<
    NodeId,
>
    decreases nodes.len() - k,
{
    if k < 0 || k >= nodes.len() {
        None
    } else if frame.spec_visible(nodes[k]) {
        Some(nodes[k])
    } else {
        spec_first_visible_node(frame, nodes, k + 1)
    }
}


/// When no listed node is visible from `k` on, every one of them is
/// invisible to the frame.
pub proof fn lemma_first_visible_none(frame: CallFrame, nodes: Seq<NodeId>, k: int)
    requires
        0 <= k,
        spec_first_visible_node(frame, nodes, k) is None,
    ensures
        forall|i: int| k <= i < nodes.len() ==> !frame.spec_visible(#[trigger] nodes[i]),
    decreases nodes.len() - k,
{
    if k < nodes.len() {
        lemma_first_visible_none(frame, nodes, k + 1);
    }
}


/// Frame balance at the pop boundary: when the listed nodes move from a
/// finished callee up to its caller, no node vanishes and none is
/// duplicated — the union of the two frames' owned roots is preserved,
/// and frames that were disjoint stay disjoint.
pub proof fn lemma_pass_up_preserves_union(
    parent0: CallFrame,
    parent1: CallFrame,
    child0: CallFrame,
    child1: CallFrame,
    nodes: Seq<NodeId>,
)
    requires
        forall|m: NodeId|
            #[trigger] child1.spec_owns(m) == (child0.spec_owns(m) && !nodes.contains(m)),
        parent1.owned@ == parent0.owned@ + nodes,
        forall|m: NodeId| nodes.contains(m) ==> #[trigger] child0.spec_owns(m),
        forall|m: NodeId| nodes.contains(m) ==> !(#[trigger] parent0.spec_owns(m)),
    ensures
        forall|m: NodeId|
            (#[trigger] parent1.spec_owns(m) || child1.spec_owns(m)) == (parent0.spec_owns(m)
                || child0.spec_owns(m)),
        (forall|m: NodeId| !(#[trigger] parent0.spec_owns(m) && child0.spec_owns(m))) ==> (forall|
            m: NodeId,
        | !(#[trigger] parent1.spec_owns(m) && child1.spec_owns(m))),
{
    assert forall|m: NodeId|
        (#[trigger] parent1.spec_owns(m)) == (parent0.spec_owns(m) || nodes.contains(m)) by {
        let p0 = parent0.owned@;
        let p1 = parent1.owned@;
        if p1.contains(m) {
            let q = choose|q: int| 0 <= q < p1.len() && p1[q] == m;
            if q < p0.len() {
                assert(p0[q] == m);
            } else {
                assert(nodes[q - p0.len()] == m);
            }
        }
        if p0.contains(m) {
            let q = choose|q: int| 0 <= q < p0.len() && p0[q] == m;
            assert(p1[q] == m);
        }
        if nodes.contains(m) {
            let q = choose|q: int| 0 <= q < nodes.len() && nodes[q] == m;
            assert(p1[p0.len() + q] == m);
        }
    }
}


/// The single rule behind every move path: a node that any open
/// substate borrows cannot change ownership.  Nesting it into a new
/// node, writing it into an open substate, re-parenting its partitions,
/// and passing it to another frame all reject it with a borrow
/// conflict; none can silently succeed.
pub proof fn lemma_borrow_blocks_every_move(frame: CallFrame, n: NodeId)
    requires
        frame.spec_borrowed(n),
    ensures
        frame.spec_take_error(n) == Some(TakeNodeError::SubstateBorrowed(n)),
        forall|nodes: Seq<NodeId>, k: int|
            0 <= k < nodes.len() && nodes[k] == n ==> #[trigger] frame.spec_take_all_error(
                nodes,
                k,
            ) is Some && frame.spec_take_all_error(nodes, 0) is Some,
        forall|old_children: Seq<NodeId>, owns: Seq<NodeId>, k: int|
            0 <= k < owns.len() && owns[k] == n && !old_children.contains(n)
                ==> #[trigger] frame.spec_write_take_error(old_children, owns, k) is Some
                && frame.spec_write_take_error(old_children, owns, 0) is Some,
        forall|heap: Heap, moves: Seq<(PartitionNumber, (NodeId, PartitionNumber))>, k: int|
            0 <= k < moves.len() && moves[k].1.0 == n
                ==> #[trigger] frame.spec_move_sources_error(heap, moves, k) is Some
                && frame.spec_move_sources_error(heap, moves, 0) is Some,
{
    assert forall|nodes: Seq<NodeId>, k: int|
        0 <= k < nodes.len() && nodes[k] == n implies #[trigger] frame.spec_take_all_error(
        nodes,
        k,
    ) is Some && frame.spec_take_all_error(nodes, 0) is Some by {
        if frame.spec_take_all_error(nodes, k) is None {
            frame.lemma_take_all_ok(nodes, k);
            assert(!frame.spec_borrowed(nodes[k]));
        }
        if frame.spec_take_all_error(nodes, 0) is None {
            frame.lemma_take_all_ok(nodes, 0);
            assert(!frame.spec_borrowed(nodes[k]));
        }
    }
    assert forall|old_children: Seq<NodeId>, owns: Seq<NodeId>, k: int|
        0 <= k < owns.len() && owns[k] == n && !old_children.contains(n)
            implies #[trigger] frame.spec_write_take_error(old_children, owns, k) is Some
            && frame.spec_write_take_error(old_children, owns, 0) is Some by {
        if frame.spec_write_take_error(old_children, owns, k) is None {
            frame.lemma_write_check_ok(old_children, owns, k);
            assert(!frame.spec_borrowed(owns[k]));
        }
        if frame.spec_write_take_error(old_children, owns, 0) is None {
            frame.lemma_write_check_ok(old_children, owns, 0);
            assert(!frame.spec_borrowed(owns[k]));
        }
    }
    assert forall|heap: Heap, moves: Seq<(PartitionNumber, (NodeId, PartitionNumber))>, k: int|
        0 <= k < moves.len() && moves[k].1.0 == n
            implies #[trigger] frame.spec_move_sources_error(heap, moves, k) is Some
            && frame.spec_move_sources_error(heap, moves, 0) is Some by {
        if frame.spec_move_sources_error(heap, moves, k) is None {
            frame.lemma_move_sources_ok(heap, moves, k);
            assert(!frame.spec_borrowed(moves[k].1.0));
        }
        if frame.spec_move_sources_error(heap, moves, 0) is None {
            frame.lemma_move_sources_ok(heap, moves, 0);
            assert(!frame.spec_borrowed(moves[k].1.0));
        }
    }
}

} // verus!
