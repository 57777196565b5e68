//! The transactional substate overlay.
//!
//! A `Track` presents a mutable, lock-coordinated view over the immutable
//! snapshot a substate store holds at transaction start, and materializes
//! an ordered diff of commits when the transaction ends.  Substates are
//! loaded on demand: the size of the snapshot value is recorded at first
//! load, so the final diff always reports changes against the
//! pre-transaction value.

use vstd::prelude::*;
use crate::types::{NodeId, PartitionNumber, SubstateId, SubstateKey, SubstateValue, ValueView};
use crate::store::{DatabaseUpdate, SubstateStore, spec_apply_updates};

verus! {

/// One entry of the diff a transaction commits: an insert, an update
/// against the pre-transaction value, or a delete.  Sizes feed the fee
/// rules' state-expansion charge.
#[derive(Debug, Clone, PartialEq, Eq)]
pub enum StoreCommit {
    Insert { substate_id: SubstateId, size: usize },
    Update { substate_id: SubstateId, size: usize, old_size: usize },
    Delete { substate_id: SubstateId },
}

impl StoreCommit {
    /// Growth in stored bytes charged for this commit: only positive
    /// growth counts; shrinkage and deletes are free.
    pub open spec fn spec_growth(self) -> int {
        match self {
            StoreCommit::Insert { size, .. } => size as int,
            StoreCommit::Update { size, old_size, .. } => if size > old_size {
                size - old_size
            } else {
                0
            },
            StoreCommit::Delete { .. } => 0,
        }
    }

    pub fn growth(&self) -> (r: usize)
        ensures
            r == self.spec_growth(),
    {
        match self {
            StoreCommit::Insert { size, .. } => *size,
            StoreCommit::Update { size, old_size, .. } => {
                if *size > *old_size {
                    *size - *old_size
                } else {
                    0
                }
            },
            StoreCommit::Delete { .. } => 0,
        }
    }
}

/// Lock state of one tracked substate: free, shared among readers, or
/// exclusively held by a writer.
#[derive(Debug, Clone, Copy, PartialEq, Eq, Structural)]
pub enum LockState {
    Free,
    Read(u32),
    Write,
}

/// Failures of the overlay.
#[derive(Debug, Clone, Copy, PartialEq, Eq, Structural)]
pub enum TrackError {
    NotFound(SubstateId),
    SubstateLocked(SubstateId),
    LockUnderflow(SubstateId),
    TooManyReaders(SubstateId),
}

/// One substate loaded into the overlay: its current value (`None` once
/// deleted), the size of the snapshot value at transaction start (`None`
/// when the snapshot had no such substate), whether it was written, and
/// its lock state.
#[derive(Debug)]
pub struct TrackedSubstate {
    pub substate_id: SubstateId,
    pub value: Option<SubstateValue>,
    pub base_size: Option<usize>,
    pub written: bool,
    pub lock: LockState,
}

/// The view of an optional value.
pub open spec fn opt_view(v: Option<SubstateValue>) -> Option<ValueView> {
    match v {
        Some(s) => Some(s@),
        None => None,
    }
}

/// The ordered commit diff that a finished overlay yields: one entry per
/// written substate, in overlay order.
pub open spec fn commits_of(s: Seq<TrackedSubstate>) -> Seq<StoreCommit>
    decreases s.len(),
{
    if s.len() == 0 {
        Seq::empty()
    } else {
        let rest = commits_of(s.drop_last());
        let e = s.last();
        if !e.written {
            rest
        } else {
            match (e.base_size, opt_view(e.value)) {
                (None, Some(v)) => rest.push(
                    StoreCommit::Insert { substate_id: e.substate_id, size: v.bytes.len() as usize },
                ),
                (Some(old_size), Some(v)) => rest.push(
                    StoreCommit::Update {
                        substate_id: e.substate_id,
                        size: v.bytes.len() as usize,
                        old_size,
                    },
                ),
                (Some(_), None) => rest.push(StoreCommit::Delete { substate_id: e.substate_id }),
                (None, None) => rest,
            }
        }
    }
}

/// The ordered database-update batch of a finished overlay.
pub open spec fn updates_of(s: Seq<TrackedSubstate>) -> Seq<DatabaseUpdate>
    decreases s.len(),
{
    if s.len() == 0 {
        Seq::empty()
    } else {
        let rest = updates_of(s.drop_last());
        let e = s.last();
        if e.written {
            rest.push(DatabaseUpdate { substate_id: e.substate_id, value: e.value })
        } else {
            rest
        }
    }
}

/// The transactional overlay over a substate store snapshot.
#[derive(Debug)]
pub struct Track {
    pub store: SubstateStore,
    pub overlay: Vec<TrackedSubstate>,
}

impl Track {
    /// Overlay ids are unique; every recorded base size is the size of
    /// the snapshot value, and entries never pair an absent base with a
    /// deletion.
    pub open spec fn wf(self) -> bool {
        &&& self.store.wf()
        &&& forall|i: int, j: int|
            0 <= i < j < self.overlay@.len() ==> (#[trigger] self.overlay@[i]).substate_id != (
            #[trigger] self.overlay@[j]).substate_id
        &&& forall|i: int|
            0 <= i < self.overlay@.len() ==> (#[trigger] self.overlay@[i]).base_size == (
            match self.store.spec_get(self.overlay@[i].substate_id) {
                Some(v) => Some(v@.bytes.len() as usize),
                None => None::<usize>,
            })
        &&& forall|i: int|
            0 <= i < self.overlay@.len() ==> ((#[trigger] self.overlay@[i]).value is None ==> self
                .overlay@[i].written)
    }

    pub open spec fn spec_tracked(self, id: SubstateId) -> bool {
        exists|i: int|
            0 <= i < self.overlay@.len() && (#[trigger] self.overlay@[i]).substate_id == id
    }

    pub open spec fn spec_overlay_index(self, id: SubstateId) -> int {
        choose|i: int|
            0 <= i < self.overlay@.len() && (#[trigger] self.overlay@[i]).substate_id == id
    }

    /// The value visible through the overlay, as a view: the overlay
    /// wins, deletions included; otherwise the snapshot value stands.
    pub open spec fn spec_get_v(self, id: SubstateId) -> Option<ValueView> {
        if self.spec_tracked(id) {
            opt_view(self.overlay@[self.spec_overlay_index(id)].value)
        } else {
            opt_view(self.store.spec_get(id))
        }
    }

    /// The lock state of a substate; an untracked substate is free.
    pub open spec fn spec_lock(self, id: SubstateId) -> LockState {
        if self.spec_tracked(id) {
            self.overlay@[self.spec_overlay_index(id)].lock
        } else {
            LockState::Free
        }
    }

    /// The error an `acquire_lock` call yields, if any: the substate must
    /// be visible, read locks are shareable, and mutable locks are
    /// exclusive.
    pub open spec fn spec_acquire_error(self, id: SubstateId, mutable: bool) -> Option<
        TrackError,
    > {
        if self.spec_get_v(id) is None {
            Some(TrackError::NotFound(id))
        } else if mutable && self.spec_lock(id) != LockState::Free {
            Some(TrackError::SubstateLocked(id))
        } else if !mutable && self.spec_lock(id) is Write {
            Some(TrackError::SubstateLocked(id))
        } else if !mutable && self.spec_lock(id) == LockState::Read(u32::MAX) {
            Some(TrackError::TooManyReaders(id))
        } else {
            None
        }
    }

    /// The lock state after a successful acquisition.
    pub open spec fn spec_lock_after_acquire(self, id: SubstateId, mutable: bool) -> LockState {
        if mutable {
            LockState::Write
        } else {
            match self.spec_lock(id) {
                LockState::Read(n) => LockState::Read((n + 1) as u32),
                _ => LockState::Read(1),
            }
        }
    }

    /// In a well-formed overlay, the entry at position `i` is the one
    /// the overlay functions yield for its id.
    pub proof fn lemma_overlay_index(self, i: int)
        requires
            self.wf(),
            0 <= i < self.overlay@.len(),
        ensures
            self.spec_tracked(self.overlay@[i].substate_id),
            self.spec_overlay_index(self.overlay@[i].substate_id) == i,
    {
        assert(self.spec_tracked(self.overlay@[i].substate_id));
        let k = self.spec_overlay_index(self.overlay@[i].substate_id);
        if k < i {
            assert(self.overlay@[k].substate_id != self.overlay@[i].substate_id);
        } else if k > i {
            assert(self.overlay@[i].substate_id != self.overlay@[k].substate_id);
        }
    }

    /// Starts a transaction over the given snapshot.
    pub fn new(store: SubstateStore) -> (r: Track)
        requires
            store.wf(),
        ensures
            r.wf(),
            r.store == store,
            r.overlay@ =~= Seq::<TrackedSubstate>::empty(),
            forall|id: SubstateId| #[trigger] r.spec_get_v(id) == opt_view(store.spec_get(id)),
            forall|id: SubstateId| #[trigger] r.spec_lock(id) == LockState::Free,
    {
        Track { store, overlay: Vec::new() }
    }

    /// Position of `id` in the overlay, if loaded.
    fn find(&self, id: SubstateId) -> (r: Option<usize>)
        requires
            self.wf(),
        ensures
            match r {
                Some(i) => i < self.overlay@.len() && self.overlay@[i as int].substate_id == id
                    && self.spec_tracked(id) && self.spec_overlay_index(id) == i,
                None => !self.spec_tracked(id),
            },
    {
        let n: usize = self.overlay.len();
        let mut i: usize = 0;
        while i < n
            invariant
                i <= n,
                n == self.overlay@.len(),
                self.wf(),
                forall|j: int| 0 <= j < i ==> (#[trigger] self.overlay@[j]).substate_id != id,
            decreases n - i,
        {
            if self.overlay[i].substate_id == id {
                proof {
                    self.lemma_overlay_index(i as int);
                }
                return Some(i);
            }
            i = i + 1;
        }
        None
    }

    /// Loads `id` into the overlay if the snapshot holds it and it is
    /// not yet tracked.  Afterwards `id` is tracked exactly when it is
    /// visible.
    #[verifier::loop_isolation(false)]
    fn ensure_loaded(&mut self, id: SubstateId) -> (r: Option<usize>)
        requires
            old(self).wf(),
        ensures
            final(self).wf(),
            final(self).store == old(self).store,
            forall|id2: SubstateId|
                #[trigger] final(self).spec_get_v(id2) == old(self).spec_get_v(id2),
            forall|id2: SubstateId|
                #[trigger] final(self).spec_lock(id2) == old(self).spec_lock(id2),
            forall|i: int|
                0 <= i < old(self).overlay@.len() ==> #[trigger] final(self).overlay@[i] == old(self).overlay@[i],
            match r {
                Some(i) => final(self).spec_tracked(id) && final(self).spec_overlay_index(id)
                    == i as int && i < final(self).overlay@.len(),
                None => !final(self).spec_tracked(id) && old(self).spec_get_v(id) is None
                    && final(self).overlay@ == old(self).overlay@,
            },
            final(self).spec_get_v(id) is Some ==> r is Some,
            commits_of(final(self).overlay@) == commits_of(old(self).overlay@),
            updates_of(final(self).overlay@) == updates_of(old(self).overlay@),
    {
        let found = self.find(id);
        match found {
            Some(i) => Some(i),
            None => {
                let from_store = self.store.get_substate(id);
                match from_store {
                    Some(v) => {
                        let copy = v.duplicate();
                        let size = copy.size();
                        let entry = TrackedSubstate {
                            substate_id: id,
                            value: Some(copy),
                            base_size: Some(size),
                            written: false,
                            lock: LockState::Free,
                        };
                        let i = self.overlay.len();
                        self.overlay.push(entry);
                        proof {
                            let s0 = old(self).overlay@;
                            let s1 = self.overlay@;
                            let m = s0.len() as int;
                            assert(s1[m].substate_id == id);
                            assert(final(self).wf()) by {
                                assert forall|p: int, q: int|
                                    0 <= p < q < s1.len() implies (
                                #[trigger] s1[p]).substate_id != (
                                #[trigger] s1[q]).substate_id by {
                                    if q == m && s1[p].substate_id == id {
                                        old(self).lemma_overlay_index(p);
                                    }
                                }
                            }
                            self.lemma_overlay_index(m);
                            assert forall|id2: SubstateId| #[trigger] final(self).spec_get_v(id2)
                                == old(self).spec_get_v(id2) by {
                                if id2 == id {
                                    assert(final(self).spec_get_v(id) == opt_view(
                                        old(self).store.spec_get(id),
                                    ));
                                } else {
                                    if old(self).spec_tracked(id2) {
                                        let k = old(self).spec_overlay_index(id2);
                                        assert(s1[k].substate_id == id2);
                                        self.lemma_overlay_index(k);
                                    } else {
                                        assert(!final(self).spec_tracked(id2)) by {
                                            if final(self).spec_tracked(id2) {
                                                let k = final(self).spec_overlay_index(id2);
                                                assert(s1[k].substate_id == id2);
                                                assert(k != m);
                                                assert(s0[k].substate_id == id2);
                                            }
                                        }
                                    }
                                }
                            }
                            assert forall|id2: SubstateId| #[trigger] final(self).spec_lock(id2)
                                == old(self).spec_lock(id2) by {
                                if id2 == id {
                                } else {
                                    if old(self).spec_tracked(id2) {
                                        let k = old(self).spec_overlay_index(id2);
                                        assert(s1[k].substate_id == id2);
                                        self.lemma_overlay_index(k);
                                    } else {
                                        assert(!final(self).spec_tracked(id2)) by {
                                            if final(self).spec_tracked(id2) {
                                                let k = final(self).spec_overlay_index(id2);
                                                assert(s1[k].substate_id == id2);
                                                assert(k != m);
                                                assert(s0[k].substate_id == id2);
                                            }
                                        }
                                    }
                                }
                            }
                            assert(commits_of(s1) == commits_of(s0)) by {
                                assert(s1.drop_last() =~= s0);
                            }
                            assert(updates_of(s1) == updates_of(s0)) by {
                                assert(s1.drop_last() =~= s0);
                            }
                        }
                        Some(i)
                    },
                    None => None,
                }
            },
        }
    }

    /// Acquires a read or mutable lock on `id`, loading the snapshot
    /// value on first touch.  Read locks are shareable; a mutable lock
    /// is exclusive against every other lock on the same substate.
    pub fn acquire_lock(&mut self, id: SubstateId, mutable: bool) -> (r: Result<(), TrackError>)
        requires
            old(self).wf(),
        ensures
            final(self).wf(),
            final(self).store == old(self).store,
            forall|id2: SubstateId|
                #[trigger] final(self).spec_get_v(id2) == old(self).spec_get_v(id2),
            commits_of(final(self).overlay@) == commits_of(old(self).overlay@),
            updates_of(final(self).overlay@) == updates_of(old(self).overlay@),
            match old(self).spec_acquire_error(id, mutable) {
                Some(e) => r == Err::<(), TrackError>(e) && forall|id2: SubstateId|
                    #[trigger] final(self).spec_lock(id2) == old(self).spec_lock(id2),
                None => r is Ok && final(self).spec_lock(id) == old(self).spec_lock_after_acquire(
                    id,
                    mutable,
                ) && forall|id2: SubstateId|
                    id2 != id ==> #[trigger] final(self).spec_lock(id2) == old(self).spec_lock(
                        id2,
                    ),
            },
    {
        let found = self.ensure_loaded(id);
        let ghost mid = *self;
        match found {
            None => Err(TrackError::NotFound(id)),
            Some(i) => {
                let is_deleted = self.overlay[i].value.is_none();
                if is_deleted {
                    return Err(TrackError::NotFound(id));
                }
                let cur = self.overlay[i].lock;
                let next = if mutable {
                    match cur {
                        LockState::Free => LockState::Write,
                        _ => {
                            return Err(TrackError::SubstateLocked(id));
                        },
                    }
                } else {
                    match cur {
                        LockState::Free => LockState::Read(1),
                        LockState::Read(n) => {
                            if n == u32::MAX {
                                return Err(TrackError::TooManyReaders(id));
                            }
                            LockState::Read(n + 1)
                        },
                        LockState::Write => {
                            return Err(TrackError::SubstateLocked(id));
                        },
                    }
                };
                let value = self.overlay.remove(i);
                let entry = TrackedSubstate { lock: next, ..value };
                self.overlay.insert(i, entry);
                proof {
                    assert(self.overlay@ =~= mid.overlay@.update(i as int, entry));
                    assert(forall|j: int|
                        0 <= j < self.overlay@.len() ==> (#[trigger] self.overlay@[j]).substate_id
                            == mid.overlay@[j].substate_id);
                    assert(final(self).wf());
                    self.lemma_overlay_index(i as int);
                    assert forall|id2: SubstateId| #[trigger] final(self).spec_get_v(id2) == mid
                        .spec_get_v(id2) by {
                        if mid.spec_tracked(id2) {
                            let k = mid.spec_overlay_index(id2);
                            assert(self.overlay@[k].substate_id == id2);
                            self.lemma_overlay_index(k);
                            assert(self.overlay@[k].value == mid.overlay@[k].value);
                        } else {
                            assert(!final(self).spec_tracked(id2)) by {
                                if final(self).spec_tracked(id2) {
                                    let k = final(self).spec_overlay_index(id2);
                                    assert(mid.overlay@[k].substate_id == id2);
                                }
                            }
                        }
                    }
                    assert forall|id2: SubstateId| id2 != id implies #[trigger] final(self)
                        .spec_lock(id2) == mid.spec_lock(id2) by {
                        if mid.spec_tracked(id2) {
                            let k = mid.spec_overlay_index(id2);
                            assert(self.overlay@[k].substate_id == id2);
                            self.lemma_overlay_index(k);
                            assert(k != i as int);
                        } else {
                            assert(!final(self).spec_tracked(id2)) by {
                                if final(self).spec_tracked(id2) {
                                    let k = final(self).spec_overlay_index(id2);
                                    assert(mid.overlay@[k].substate_id == id2);
                                }
                            }
                        }
                    }
                    assert(commits_of(self.overlay@) == commits_of(mid.overlay@)) by {
                        lemma_commits_lock_irrelevant(mid.overlay@, i as int, entry);
                    }
                    assert(updates_of(self.overlay@) == updates_of(mid.overlay@)) by {
                        lemma_updates_lock_irrelevant(mid.overlay@, i as int, entry);
                    }
                }
                Ok(())
            },
        }
    }

    /// Releases one lock on `id`; `written` marks the substate dirty for
    /// diff emission.  Releasing an unlocked substate is an underflow.
    pub fn release_lock(&mut self, id: SubstateId, written: bool) -> (r: Result<(), TrackError>)
        requires
            old(self).wf(),
        ensures
            final(self).wf(),
            final(self).store == old(self).store,
            forall|id2: SubstateId|
                #[trigger] final(self).spec_get_v(id2) == old(self).spec_get_v(id2),
            old(self).spec_lock(id) == LockState::Free ==> r == Err::<(), TrackError>(
                TrackError::LockUnderflow(id),
            ) && *final(self) == *old(self),
            old(self).spec_lock(id) != LockState::Free ==> r is Ok && final(self).spec_lock(id)
                == (match old(self).spec_lock(id) {
                LockState::Read(n) => if n > 1 {
                    LockState::Read((n - 1) as u32)
                } else {
                    LockState::Free
                },
                _ => LockState::Free,
            }) && forall|id2: SubstateId|
                id2 != id ==> #[trigger] final(self).spec_lock(id2) == old(self).spec_lock(id2),
    {
        let found = self.find(id);
        match found {
            None => Err(TrackError::LockUnderflow(id)),
            Some(i) => {
                let cur = self.overlay[i].lock;
                let next = match cur {
                    LockState::Free => {
                        return Err(TrackError::LockUnderflow(id));
                    },
                    LockState::Read(n) => {
                        if n > 1 {
                            LockState::Read(n - 1)
                        } else {
                            LockState::Free
                        }
                    },
                    LockState::Write => LockState::Free,
                };
                let value = self.overlay.remove(i);
                let new_written = value.written || written;
                let entry = TrackedSubstate { lock: next, written: new_written, ..value };
                self.overlay.insert(i, entry);
                proof {
                    assert(self.overlay@ =~= old(self).overlay@.update(i as int, entry));
                    assert(forall|j: int|
                        0 <= j < self.overlay@.len() ==> (#[trigger] self.overlay@[j]).substate_id
                            == old(self).overlay@[j].substate_id);
                    assert(final(self).wf());
                    self.lemma_overlay_index(i as int);
                    assert forall|id2: SubstateId| #[trigger] final(self).spec_get_v(id2) == old(self).spec_get_v(id2) by {
                        if old(self).spec_tracked(id2) {
                            let k = old(self).spec_overlay_index(id2);
                            assert(self.overlay@[k].substate_id == id2);
                            self.lemma_overlay_index(k);
                            assert(self.overlay@[k].value == old(self).overlay@[k].value);
                        } else {
                            assert(!final(self).spec_tracked(id2)) by {
                                if final(self).spec_tracked(id2) {
                                    let k = final(self).spec_overlay_index(id2);
                                    assert(old(self).overlay@[k].substate_id == id2);
                                }
                            }
                        }
                    }
                    assert forall|id2: SubstateId| id2 != id implies #[trigger] final(self)
                        .spec_lock(id2) == old(self).spec_lock(id2) by {
                        if old(self).spec_tracked(id2) {
                            let k = old(self).spec_overlay_index(id2);
                            assert(self.overlay@[k].substate_id == id2);
                            self.lemma_overlay_index(k);
                            assert(k != i as int);
                        } else {
                            assert(!final(self).spec_tracked(id2)) by {
                                if final(self).spec_tracked(id2) {
                                    let k = final(self).spec_overlay_index(id2);
                                    assert(old(self).overlay@[k].substate_id == id2);
                                }
                            }
                        }
                    }
                }
                Ok(())
            },
        }
    }

    /// Reads the substate visible under `id`.
    pub fn get_substate(&self, id: SubstateId) -> (r: Option<&SubstateValue>)
        requires
            self.wf(),
        ensures
            match r {
                Some(v) => self.spec_get_v(id) == Some(v@),
                None => self.spec_get_v(id) is None,
            },
    {
        let found = self.find(id);
        match found {
            Some(i) => {
                match &self.overlay[i].value {
                    Some(v) => Some(v),
                    None => None,
                }
            },
            None => self.store.get_substate(id),
        }
    }

    /// Writes `value` under `id`, loading the base size on first touch,
    /// and marks the substate dirty.
    pub fn set_substate(&mut self, id: SubstateId, value: SubstateValue)
        requires
            old(self).wf(),
        ensures
            final(self).wf(),
            final(self).store == old(self).store,
            final(self).spec_get_v(id) == Some(value@),
            forall|id2: SubstateId|
                id2 != id ==> #[trigger] final(self).spec_get_v(id2) == old(self).spec_get_v(id2),
            forall|id2: SubstateId|
                id2 != id ==> #[trigger] final(self).spec_lock(id2) == old(self).spec_lock(id2),
            final(self).spec_lock(id) == old(self).spec_lock(id),
    {
        let found = self.ensure_loaded(id);
        let ghost mid = *self;
        match found {
            Some(i) => {
                let prev = self.overlay.remove(i);
                let entry = TrackedSubstate { value: Some(value), written: true, ..prev };
                self.overlay.insert(i, entry);
                proof {
                    assert(self.overlay@ =~= mid.overlay@.update(i as int, entry));
                    assert(forall|j: int|
                        0 <= j < self.overlay@.len() ==> (#[trigger] self.overlay@[j]).substate_id
                            == mid.overlay@[j].substate_id);
                    assert(final(self).wf());
                    self.lemma_overlay_index(i as int);
                    assert(final(self).spec_lock(id) == self.overlay@[i as int].lock);
                    assert(entry.lock == mid.overlay@[i as int].lock);
                    assert(mid.spec_lock(id) == mid.overlay@[i as int].lock);
                    assert forall|id2: SubstateId| id2 != id implies #[trigger] final(self)
                        .spec_get_v(id2) == mid.spec_get_v(id2) by {
                        if mid.spec_tracked(id2) {
                            let k = mid.spec_overlay_index(id2);
                            assert(self.overlay@[k].substate_id == id2);
                            self.lemma_overlay_index(k);
                            assert(k != i as int);
                        } else {
                            assert(!final(self).spec_tracked(id2)) by {
                                if final(self).spec_tracked(id2) {
                                    let k = final(self).spec_overlay_index(id2);
                                    assert(mid.overlay@[k].substate_id == id2);
                                }
                            }
                        }
                    }
                    assert forall|id2: SubstateId| id2 != id implies #[trigger] final(self)
                        .spec_lock(id2) == mid.spec_lock(id2) by {
                        if mid.spec_tracked(id2) {
                            let k = mid.spec_overlay_index(id2);
                            assert(self.overlay@[k].substate_id == id2);
                            self.lemma_overlay_index(k);
                            assert(k != i as int);
                        } else {
                            assert(!final(self).spec_tracked(id2)) by {
                                if final(self).spec_tracked(id2) {
                                    let k = final(self).spec_overlay_index(id2);
                                    assert(mid.overlay@[k].substate_id == id2);
                                }
                            }
                        }
                    }
                }
            },
            None => {
                // Not in the snapshot: this write is an insert.
                let entry = TrackedSubstate {
                    substate_id: id,
                    value: Some(value),
                    base_size: None,
                    written: true,
                    lock: LockState::Free,
                };
                let ghost m = self.overlay@.len() as int;
                self.overlay.push(entry);
                proof {
                    let s0 = mid.overlay@;
                    let s1 = self.overlay@;
                    assert(s1[m].substate_id == id);
                    assert(final(self).wf()) by {
                        assert forall|p: int, q: int|
                            0 <= p < q < s1.len() implies (#[trigger] s1[p]).substate_id != (
                        #[trigger] s1[q]).substate_id by {
                            if q == m && s1[p].substate_id == id {
                                mid.lemma_overlay_index(p);
                            }
                        }
                        assert(mid.store.spec_get(id) is None);
                    }
                    self.lemma_overlay_index(m);
                    assert forall|id2: SubstateId| id2 != id implies #[trigger] final(self)
                        .spec_get_v(id2) == mid.spec_get_v(id2) by {
                        if mid.spec_tracked(id2) {
                            let k = mid.spec_overlay_index(id2);
                            assert(s1[k].substate_id == id2);
                            self.lemma_overlay_index(k);
                        } else {
                            assert(!final(self).spec_tracked(id2)) by {
                                if final(self).spec_tracked(id2) {
                                    let k = final(self).spec_overlay_index(id2);
                                    assert(s1[k].substate_id == id2);
                                    assert(k != m);
                                    assert(s0[k].substate_id == id2);
                                }
                            }
                        }
                    }
                    assert forall|id2: SubstateId| id2 != id implies #[trigger] final(self)
                        .spec_lock(id2) == mid.spec_lock(id2) by {
                        if mid.spec_tracked(id2) {
                            let k = mid.spec_overlay_index(id2);
                            assert(s1[k].substate_id == id2);
                            self.lemma_overlay_index(k);
                        } else {
                            assert(!final(self).spec_tracked(id2)) by {
                                if final(self).spec_tracked(id2) {
                                    let k = final(self).spec_overlay_index(id2);
                                    assert(s1[k].substate_id == id2);
                                    assert(k != m);
                                    assert(s0[k].substate_id == id2);
                                }
                            }
                        }
                    }
                }
            },
        }
    }

    /// Deletes the substate under `id`, loading the base size on first
    /// touch, and marks the deletion for diff emission.
    pub fn remove_substate(&mut self, id: SubstateId)
        requires
            old(self).wf(),
        ensures
            final(self).wf(),
            final(self).store == old(self).store,
            final(self).spec_get_v(id) is None,
            forall|id2: SubstateId|
                id2 != id ==> #[trigger] final(self).spec_get_v(id2) == old(self).spec_get_v(id2),
            forall|id2: SubstateId|
                id2 != id ==> #[trigger] final(self).spec_lock(id2) == old(self).spec_lock(id2),
            final(self).spec_lock(id) == old(self).spec_lock(id),
    {
        let found = self.ensure_loaded(id);
        let ghost mid = *self;
        match found {
            Some(i) => {
                let prev = self.overlay.remove(i);
                let entry = TrackedSubstate { value: None, written: true, ..prev };
                self.overlay.insert(i, entry);
                proof {
                    assert(self.overlay@ =~= mid.overlay@.update(i as int, entry));
                    assert(forall|j: int|
                        0 <= j < self.overlay@.len() ==> (#[trigger] self.overlay@[j]).substate_id
                            == mid.overlay@[j].substate_id);
                    assert(final(self).wf());
                    self.lemma_overlay_index(i as int);
                    assert(final(self).spec_lock(id) == self.overlay@[i as int].lock);
                    assert(entry.lock == mid.overlay@[i as int].lock);
                    assert(mid.spec_lock(id) == mid.overlay@[i as int].lock);
                    assert forall|id2: SubstateId| id2 != id implies #[trigger] final(self)
                        .spec_get_v(id2) == mid.spec_get_v(id2) by {
                        if mid.spec_tracked(id2) {
                            let k = mid.spec_overlay_index(id2);
                            assert(self.overlay@[k].substate_id == id2);
                            self.lemma_overlay_index(k);
                            assert(k != i as int);
                        } else {
                            assert(!final(self).spec_tracked(id2)) by {
                                if final(self).spec_tracked(id2) {
                                    let k = final(self).spec_overlay_index(id2);
                                    assert(mid.overlay@[k].substate_id == id2);
                                }
                            }
                        }
                    }
                    assert forall|id2: SubstateId| id2 != id implies #[trigger] final(self)
                        .spec_lock(id2) == mid.spec_lock(id2) by {
                        if mid.spec_tracked(id2) {
                            let k = mid.spec_overlay_index(id2);
                            assert(self.overlay@[k].substate_id == id2);
                            self.lemma_overlay_index(k);
                            assert(k != i as int);
                        } else {
                            assert(!final(self).spec_tracked(id2)) by {
                                if final(self).spec_tracked(id2) {
                                    let k = final(self).spec_overlay_index(id2);
                                    assert(mid.overlay@[k].substate_id == id2);
                                }
                            }
                        }
                    }
                }
            },
            None => {
                // Neither tracked nor in the snapshot: deleting nothing
                // records nothing.
            },
        }
    }

    /// Lists the keys of every substate visible under one partition of
    /// a node: keys already in the snapshot keep the snapshot's
    /// insertion order and come first, keys first written this
    /// transaction follow in write order.
    #[verifier::loop_isolation(false)]
    pub fn scan_keys(&self, node: NodeId, partition: PartitionNumber) -> (r: Vec<SubstateKey>)
        requires
            self.wf(),
        ensures
            forall|k: SubstateKey|
                #[trigger] r@.contains(k) == (self.spec_get_v(
                    SubstateId { node_id: node, partition, key: k },
                ) is Some),
            forall|i: int, j: int| 0 <= i < j < r@.len() ==> r@[i] != r@[j],
    {
        let mut out: Vec<SubstateKey> = Vec::new();

        // Snapshot keys still visible through the overlay.
        let sn: usize = self.store.entries.len();
        let mut i: usize = 0;
        while i < sn
            invariant
                i <= sn,
                forall|k: SubstateKey|
                    #[trigger] out@.contains(k) ==> self.spec_get_v(
                        SubstateId { node_id: node, partition, key: k },
                    ) is Some && (exists|p: int|
                        0 <= p < i && (#[trigger] self.store.entries@[p]).0 == (SubstateId {
                            node_id: node,
                            partition,
                            key: k,
                        })),
                forall|k: SubstateKey|
                    (exists|p: int|
                        0 <= p < i && (#[trigger] self.store.entries@[p]).0 == (SubstateId {
                            node_id: node,
                            partition,
                            key: k,
                        })) && self.spec_get_v(SubstateId { node_id: node, partition, key: k })
                        is Some ==> #[trigger] out@.contains(k),
                forall|a: int, b: int| 0 <= a < b < out@.len() ==> out@[a] != out@[b],
            decreases sn - i,
        {
            let sid = self.store.entries[i].0;
            if sid.node_id == node && sid.partition == partition {
                let visible = match self.find(sid) {
                    Some(oi) => self.overlay[oi].value.is_some(),
                    None => true,
                };
                if visible {
                    let ghost pre = out@;
                    proof {
                        self.store.lemma_index(i as int);
                        assert(self.spec_get_v(sid) is Some) by {
                            if self.spec_tracked(sid) {
                            }
                        }
                        assert(!pre.contains(sid.key)) by {
                            if pre.contains(sid.key) {
                                let p = choose|p: int|
                                    0 <= p < i && (#[trigger] self.store.entries@[p]).0 == (
                                    SubstateId { node_id: node, partition, key: sid.key });
                                assert(self.store.entries@[p].0 == self.store.entries@[
                                    i as int].0);
                            }
                        }
                    }
                    out.push(sid.key);
                    proof {
                        assert(sid == SubstateId { node_id: node, partition, key: sid.key });
                        assert forall|k: SubstateKey| #[trigger] out@.contains(k) implies pre
                            .contains(k) || k == sid.key by {
                            let q = choose|q: int| 0 <= q < out@.len() && out@[q] == k;
                            if q < pre.len() {
                                assert(pre[q] == k);
                            }
                        }
                        assert(out@.contains(sid.key)) by {
                            assert(out@[pre.len() as int] == sid.key);
                        }
                        assert(forall|k: SubstateKey|
                            pre.contains(k) ==> #[trigger] out@.contains(k)) by {
                            assert(forall|q: int| 0 <= q < pre.len() ==> out@[q] == pre[q]);
                        }
                        assert(self.store.entries@[i as int].0 == SubstateId {
                            node_id: node,
                            partition,
                            key: sid.key,
                        });
                    }
                }
            }
            proof {
                assert forall|k: SubstateKey|
                    (exists|p: int|
                        0 <= p < i + 1 && (#[trigger] self.store.entries@[p]).0 == (SubstateId {
                            node_id: node,
                            partition,
                            key: k,
                        })) && self.spec_get_v(SubstateId { node_id: node, partition, key: k })
                        is Some implies #[trigger] out@.contains(k) by {
                    let p = choose|p: int|
                        0 <= p < i + 1 && (#[trigger] self.store.entries@[p]).0 == (SubstateId {
                            node_id: node,
                            partition,
                            key: k,
                        });
                    if p == i as int {
                        assert(self.store.entries@[i as int].0 == SubstateId {
                            node_id: node,
                            partition,
                            key: k,
                        });
                    }
                }
            }
            i = i + 1;
        }

        // Keys first written this transaction.
        let ghost store_done = out@;
        let on: usize = self.overlay.len();
        let mut j: usize = 0;
        while j < on
            invariant
                j <= on,
                forall|k: SubstateKey|
                    #[trigger] out@.contains(k) ==> self.spec_get_v(
                        SubstateId { node_id: node, partition, key: k },
                    ) is Some,
                forall|k: SubstateKey|
                    (exists|p: int|
                        0 <= p < self.store.entries@.len() && (
                        #[trigger] self.store.entries@[p]).0 == (SubstateId {
                            node_id: node,
                            partition,
                            key: k,
                        })) && self.spec_get_v(SubstateId { node_id: node, partition, key: k })
                        is Some ==> #[trigger] out@.contains(k),
                forall|k: SubstateKey|
                    (exists|p: int|
                        0 <= p < j && (#[trigger] self.overlay@[p]).substate_id == (SubstateId {
                            node_id: node,
                            partition,
                            key: k,
                        })) && self.spec_get_v(SubstateId { node_id: node, partition, key: k })
                        is Some ==> #[trigger] out@.contains(k),
                forall|a: int, b: int| 0 <= a < b < out@.len() ==> out@[a] != out@[b],
            decreases on - j,
        {
            let sid = self.overlay[j].substate_id;
            if sid.node_id == node && sid.partition == partition {
                let in_store = match self.store.get_substate(sid) {
                    Some(_) => true,
                    None => false,
                };
                let live = self.overlay[j].value.is_some();
                if live && !in_store {
                    let already = key_list_contains(&out, sid.key);
                    if !already {
                        let ghost pre = out@;
                        proof {
                            self.lemma_overlay_index(j as int);
                            assert(sid == SubstateId { node_id: node, partition, key: sid.key });
                            assert(self.spec_get_v(sid) is Some);
                        }
                        out.push(sid.key);
                        proof {
                            assert forall|k: SubstateKey| #[trigger] out@.contains(k) implies pre
                                .contains(k) || k == sid.key by {
                                let q = choose|q: int| 0 <= q < out@.len() && out@[q] == k;
                                if q < pre.len() {
                                    assert(pre[q] == k);
                                }
                            }
                            assert(out@.contains(sid.key)) by {
                                assert(out@[pre.len() as int] == sid.key);
                            }
                            assert(forall|k: SubstateKey|
                                pre.contains(k) ==> #[trigger] out@.contains(k)) by {
                                assert(forall|q: int| 0 <= q < pre.len() ==> out@[q] == pre[q]);
                            }
                        }
                    }
                }
            }
            proof {
                assert forall|k: SubstateKey|
                    (exists|p: int|
                        0 <= p < j + 1 && (#[trigger] self.overlay@[p]).substate_id == (
                        SubstateId { node_id: node, partition, key: k })) && self.spec_get_v(
                        SubstateId { node_id: node, partition, key: k },
                    ) is Some implies #[trigger] out@.contains(k) by {
                    let p = choose|p: int|
                        0 <= p < j + 1 && (#[trigger] self.overlay@[p]).substate_id == (
                        SubstateId { node_id: node, partition, key: k });
                    if p == j as int {
                        let sid2 = SubstateId { node_id: node, partition, key: k };
                        assert(self.overlay@[j as int].substate_id == sid2);
                        self.lemma_overlay_index(j as int);
                        if self.store.spec_contains(sid2) {
                        } else {
                        }
                    }
                }
            }
            j = j + 1;
        }
        proof {
            assert forall|k: SubstateKey|
                self.spec_get_v(SubstateId { node_id: node, partition, key: k })
                    is Some implies #[trigger] out@.contains(k) by {
                let sid2 = SubstateId { node_id: node, partition, key: k };
                if self.spec_tracked(sid2) {
                    let p = self.spec_overlay_index(sid2);
                    assert(self.overlay@[p].substate_id == sid2);
                } else {
                    assert(opt_view(self.store.spec_get(sid2)) is Some);
                    assert(self.store.spec_contains(sid2));
                    let p = self.store.spec_index_of(sid2);
                    assert(self.store.entries@[p].0 == sid2);
                }
            }
        }
        out
    }

    /// Removes and returns every substate visible under one partition of
    /// a node, keys and values, in the order `scan_keys` lists them.
    #[verifier::loop_isolation(false)]
    pub fn drain_substates(&mut self, node: NodeId, partition: PartitionNumber) -> (r: Vec<
        (SubstateKey, SubstateValue),
    >)
        requires
            old(self).wf(),
        ensures
            final(self).wf(),
            final(self).store == old(self).store,
            forall|k: SubstateKey|
                #[trigger] final(self).spec_get_v(SubstateId { node_id: node, partition, key: k })
                    is None,
            forall|id2: SubstateId|
                id2.node_id != node || id2.partition != partition ==> #[trigger] final(self).spec_get_v(id2) == old(self).spec_get_v(id2),
            forall|i: int|
                0 <= i < r@.len() ==> old(self).spec_get_v(
                    SubstateId { node_id: node, partition, key: (#[trigger] r@[i]).0 },
                ) == Some(r@[i].1@),
            forall|k: SubstateKey|
                old(self).spec_get_v(SubstateId { node_id: node, partition, key: k })
                    is Some ==> exists|i: int| 0 <= i < r@.len() && (#[trigger] r@[i]).0 == k,
    {
        let keys = self.scan_keys(node, partition);
        let mut out: Vec<(SubstateKey, SubstateValue)> = Vec::new();
        let total: usize = keys.len();
        let mut i: usize = 0;
        while i < total
            invariant
                i <= total,
                total == keys@.len(),
                self.wf(),
                self.store == old(self).store,
                forall|k: SubstateKey|
                    #[trigger] keys@.contains(k) == (old(self).spec_get_v(
                        SubstateId { node_id: node, partition, key: k },
                    ) is Some),
                forall|a: int, b: int| 0 <= a < b < keys@.len() ==> keys@[a] != keys@[b],
                out@.len() == i,
                forall|p: int|
                    0 <= p < i ==> (#[trigger] out@[p]).0 == keys@[p] && old(self).spec_get_v(
                        SubstateId { node_id: node, partition, key: keys@[p] },
                    ) == Some(out@[p].1@),
                forall|id2: SubstateId|
                    !(exists|p: int| 0 <= p < i && (SubstateId {
                        node_id: node,
                        partition,
                        key: #[trigger] keys@[p],
                    }) == id2) ==> #[trigger] self.spec_get_v(id2) == old(self).spec_get_v(id2),
                forall|p: int|
                    0 <= p < i ==> #[trigger] self.spec_get_v(
                        SubstateId { node_id: node, partition, key: keys@[p] },
                    ) is None,
            decreases total - i,
        {
            let key = keys[i];
            let sid = SubstateId::new(node, partition, key);
            proof {
                assert(keys@.contains(key)) by {
                    assert(keys@[i as int] == key);
                }
                assert(old(self).spec_get_v(sid) is Some);
                assert(self.spec_get_v(sid) == old(self).spec_get_v(sid)) by {
                    if exists|p: int| 0 <= p < i && (SubstateId {
                        node_id: node,
                        partition,
                        key: #[trigger] keys@[p],
                    }) == sid {
                        let p = choose|p: int|
                            0 <= p < i && (SubstateId {
                                node_id: node,
                                partition,
                                key: #[trigger] keys@[p],
                            }) == sid;
                        assert(keys@[p] == key);
                    }
                }
            }
            let value = match self.get_substate(sid) {
                Some(v) => v.duplicate(),
                None => {
                    proof {
                        assert(false);
                    }
                    SubstateValue::unit()
                },
            };
            self.remove_substate(sid);
            out.push((key, value));
            i = i + 1;
        }
        proof {
            assert forall|k: SubstateKey|
                #[trigger] final(self).spec_get_v(SubstateId { node_id: node, partition, key: k })
                    is None by {
                let sid2 = SubstateId { node_id: node, partition, key: k };
                if keys@.contains(k) {
                    let p = choose|p: int| 0 <= p < keys@.len() && keys@[p] == k;
                    assert(self.spec_get_v(
                        SubstateId { node_id: node, partition, key: keys@[p] },
                    ) is None);
                } else {
                    assert(old(self).spec_get_v(sid2) is None);
                    assert(self.spec_get_v(sid2) == old(self).spec_get_v(sid2)) by {
                        if exists|p: int| 0 <= p < total && (SubstateId {
                            node_id: node,
                            partition,
                            key: #[trigger] keys@[p],
                        }) == sid2 {
                            let p = choose|p: int|
                                0 <= p < total && (SubstateId {
                                    node_id: node,
                                    partition,
                                    key: #[trigger] keys@[p],
                                }) == sid2;
                            assert(keys@.contains(keys@[p]));
                        }
                    }
                }
            }
            assert forall|id2: SubstateId|
                id2.node_id != node || id2.partition != partition implies #[trigger] final(self).spec_get_v(id2) == old(self).spec_get_v(id2) by {
                if exists|p: int| 0 <= p < total && (SubstateId {
                    node_id: node,
                    partition,
                    key: #[trigger] keys@[p],
                }) == id2 {
                    let p = choose|p: int|
                        0 <= p < total && (SubstateId {
                            node_id: node,
                            partition,
                            key: #[trigger] keys@[p],
                        }) == id2;
                }
            }
            assert forall|k: SubstateKey|
                old(self).spec_get_v(SubstateId { node_id: node, partition, key: k })
                    is Some implies exists|i2: int|
                0 <= i2 < out@.len() && (#[trigger] out@[i2]).0 == k by {
                assert(keys@.contains(k));
                let p = choose|p: int| 0 <= p < keys@.len() && keys@[p] == k;
                assert(out@[p].0 == k);
            }
        }
        out
    }

    /// Lists every substate visible under one partition whose key is a
    /// sorted-index key, in explicit sort-key order: ascending by sort
    /// prefix, then by key.
    #[verifier::loop_isolation(false)]
    pub fn scan_sorted_substates(&self, node: NodeId, partition: PartitionNumber) -> (r: Vec<
        (SubstateKey, SubstateValue),
    >)
        requires
            self.wf(),
        ensures
            forall|i: int| 0 <= i < r@.len() ==> (#[trigger] r@[i]).0 is SortedEntry,
            forall|i: int, j: int|
                0 <= i < j < r@.len() ==> sorted_key_le((#[trigger] r@[i]).0, (#[trigger] r@[j]).0),
            forall|i: int|
                0 <= i < r@.len() ==> self.spec_get_v(
                    SubstateId { node_id: node, partition, key: (#[trigger] r@[i]).0 },
                ) == Some(r@[i].1@),
            forall|i: int, j: int|
                0 <= i < j < r@.len() ==> (#[trigger] r@[i]).0 != (#[trigger] r@[j]).0,
            forall|k: SubstateKey|
                k is SortedEntry && self.spec_get_v(
                    SubstateId { node_id: node, partition, key: k },
                ) is Some ==> exists|i: int| 0 <= i < r@.len() && (#[trigger] r@[i]).0 == k,
    {
        let keys = self.scan_keys(node, partition);
        let mut out: Vec<(SubstateKey, SubstateValue)> = Vec::new();
        let total: usize = keys.len();
        let mut i: usize = 0;
        while i < total
            invariant
                i <= total,
                total == keys@.len(),
                forall|p: int| 0 <= p < out@.len() ==> (#[trigger] out@[p]).0 is SortedEntry,
                forall|p: int, q: int|
                    0 <= p < q < out@.len() ==> sorted_key_le(
                        (#[trigger] out@[p]).0,
                        (#[trigger] out@[q]).0,
                    ),
                forall|p: int|
                    0 <= p < out@.len() ==> self.spec_get_v(
                        SubstateId { node_id: node, partition, key: (#[trigger] out@[p]).0 },
                    ) == Some(out@[p].1@),
                forall|p: int|
                    0 <= p < out@.len() ==> keys@.take(i as int).contains((#[trigger] out@[p]).0),
                forall|p: int, q: int|
                    0 <= p < q < out@.len() ==> (#[trigger] out@[p]).0 != (#[trigger] out@[q]).0,
                forall|p: int|
                    0 <= p < i && (#[trigger] keys@[p]) is SortedEntry ==> exists|q: int|
                        0 <= q < out@.len() && (#[trigger] out@[q]).0 == keys@[p],
            decreases total - i,
        {
            let key = keys[i];
            let is_sorted_key = match key {
                SubstateKey::SortedEntry(_, _) => true,
                _ => false,
            };
            if is_sorted_key {
                proof {
                    assert(keys@.contains(key)) by {
                        assert(keys@[i as int] == key);
                    }
                }
                let sid = SubstateId::new(node, partition, key);
                let value = match self.get_substate(sid) {
                    Some(v) => v.duplicate(),
                    None => {
                        proof {
                            assert(false);
                        }
                        SubstateValue::unit()
                    },
                };
                // Find the insertion point that keeps the list sorted.
                let n2: usize = out.len();
                let mut pos: usize = 0;
                while pos < n2 && sorted_key_le_exec(out[pos].0, key)
                    invariant
                        pos <= n2,
                        n2 == out@.len(),
                        forall|p: int| 0 <= p < pos ==> sorted_key_le(#[trigger] out@[p].0, key),
                    decreases n2 - pos,
                {
                    pos = pos + 1;
                }
                proof {
                    assert(pos == n2 || !sorted_key_le(out@[pos as int].0, key));
                }
                let ghost pre = out@;
                out.insert(pos, (key, value));
                proof {
                    let pv = pos as int;
                    assert(forall|p: int|
                        0 <= p < out@.len() ==> #[trigger] out@[p] == (if p < pv {
                            pre[p]
                        } else if p == pv {
                            (key, value)
                        } else {
                            pre[p - 1]
                        }));
                    assert(out@[pv] == (key, value));
                    assert(value@ == self.spec_get_v(sid)->Some_0);
                    assert forall|p: int, q: int|
                        0 <= p < q < out@.len() implies sorted_key_le(
                        (#[trigger] out@[p]).0,
                        (#[trigger] out@[q]).0,
                    ) by {
                        if q == pv {
                            assert(sorted_key_le(pre[p].0, key));
                        } else if p == pv {
                            assert(!sorted_key_le(pre[q - 1].0, key));
                            lemma_sorted_key_total(pre[q - 1].0, key);
                        } else if p < pv && q > pv {
                            assert(sorted_key_le(pre[p].0, pre[q - 1].0));
                        }
                    }
                    assert forall|p: int, q: int|
                        0 <= p < q < out@.len() implies (#[trigger] out@[p]).0 != (
                    #[trigger] out@[q]).0 by {
                        if p == pv || q == pv {
                            let other = if p == pv {
                                out@[q].0
                            } else {
                                out@[p].0
                            };
                            if other == key {
                                let w = choose|w: int| 0 <= w < pre.len() && pre[w].0 == key;
                                assert(keys@.take(i as int).contains(key));
                                let kw = choose|kw: int|
                                    0 <= kw < i && #[trigger] keys@.take(i as int)[kw] == key;
                                assert(keys@[kw] == key);
                                assert(keys@[i as int] == key);
                            }
                        }
                    }
                    assert(keys@.take(i + 1).contains(key)) by {
                        assert(keys@.take(i + 1)[i as int] == key);
                    }
                    assert(forall|p: int|
                        keys@.take(i as int).contains(#[trigger] pre[p].0) && 0 <= p < pre.len()
                            ==> keys@.take(i + 1).contains(pre[p].0)) by {
                        assert(forall|w: int|
                            0 <= w < i ==> #[trigger] keys@.take(i + 1)[w] == keys@.take(
                                i as int,
                            )[w]);
                        assert forall|p: int|
                            0 <= p < pre.len() && keys@.take(i as int).contains(
                                #[trigger] pre[p].0,
                            ) implies keys@.take(i + 1).contains(pre[p].0) by {
                            let w = choose|w: int|
                                0 <= w < i && #[trigger] keys@.take(i as int)[w] == pre[p].0;
                            assert(keys@.take(i + 1)[w] == pre[p].0);
                        }
                    }
                    assert forall|p: int|
                        0 <= p < i + 1 && (#[trigger] keys@[p]) is SortedEntry implies exists|
                            q: int,
                        | 0 <= q < out@.len() && (#[trigger] out@[q]).0 == keys@[p] by {
                        if p < i {
                            let q = choose|q: int|
                                0 <= q < pre.len() && (#[trigger] pre[q]).0 == keys@[p];
                            if q < pv {
                                assert(out@[q].0 == keys@[p]);
                            } else {
                                assert(out@[q + 1].0 == keys@[p]);
                            }
                        } else {
                            assert(out@[pv].0 == key);
                        }
                    }
                }
            } else {
                proof {
                    assert(forall|w: int|
                        0 <= w < i ==> #[trigger] keys@.take(i + 1)[w] == keys@.take(
                            i as int,
                        )[w]);
                    assert forall|p: int|
                        0 <= p < out@.len() && keys@.take(i as int).contains(
                            #[trigger] out@[p].0,
                        ) implies keys@.take(i + 1).contains(out@[p].0) by {
                        let w = choose|w: int|
                            0 <= w < i && #[trigger] keys@.take(i as int)[w] == out@[p].0;
                        assert(keys@.take(i + 1)[w] == out@[p].0);
                    }
                }
            }
            i = i + 1;
        }
        proof {
            assert forall|k: SubstateKey|
                k is SortedEntry && self.spec_get_v(
                    SubstateId { node_id: node, partition, key: k },
                ) is Some implies exists|q: int|
                0 <= q < out@.len() && (#[trigger] out@[q]).0 == k by {
                assert(keys@.contains(k));
                let p = choose|p: int| 0 <= p < keys@.len() && keys@[p] == k;
            }
        }
        out
    }

    /// Finishes the transaction: applies the written values to the
    /// snapshot and yields the resulting store together with the ordered
    /// commit diff, each change sized against the pre-transaction value.
    pub fn finalize(self) -> (r: (SubstateStore, Vec<StoreCommit>))
        requires
            self.wf(),
        ensures
            r.0.wf(),
            r.1@ == commits_of(self.overlay@),
            forall|id: SubstateId|
                #[trigger] r.0.spec_get(id) == spec_apply_updates(
                    self.store.spec_get(id),
                    updates_of(self.overlay@),
                    id,
                ),
    {
        let Track { store, overlay } = self;
        let ghost all = overlay@;
        let ghost total = all.len() as int;
        let mut overlay = overlay;
        let mut commits: Vec<StoreCommit> = Vec::new();
        let mut updates: Vec<DatabaseUpdate> = Vec::new();
        proof {
            assert(all.take(0) =~= Seq::<TrackedSubstate>::empty());
        }
        while overlay.len() > 0
            invariant
                overlay@.len() <= all.len(),
                overlay@ =~= all.skip(total - overlay@.len()),
                total == all.len() as int,
                commits@ == commits_of(all.take(total - overlay@.len())),
                updates@ == updates_of(all.take(total - overlay@.len())),
            decreases overlay@.len(),
        {
            let ghost done = total - overlay@.len();
            let entry = overlay.remove(0);
            proof {
                assert(entry == all[done]);
                assert(overlay@ =~= all.skip(done + 1));
                let t1 = all.take(done + 1);
                assert(t1.drop_last() =~= all.take(done));
                assert(t1.last() == all[done]);
            }
            if entry.written {
                match (&entry.base_size, &entry.value) {
                    (Option::None, Option::Some(v)) => {
                        let size = v.size();
                        commits.push(StoreCommit::Insert { substate_id: entry.substate_id, size });
                    },
                    (Option::Some(old_size), Option::Some(v)) => {
                        let size = v.size();
                        commits.push(
                            StoreCommit::Update {
                                substate_id: entry.substate_id,
                                size,
                                old_size: *old_size,
                            },
                        );
                    },
                    (Option::Some(_), Option::None) => {
                        commits.push(StoreCommit::Delete { substate_id: entry.substate_id });
                    },
                    (Option::None, Option::None) => {},
                }
                updates.push(DatabaseUpdate { substate_id: entry.substate_id, value: entry.value });
            }
        }
        proof {
            assert(all.take(total) =~= all);
        }
        let mut store = store;
        store.commit(updates);
        (store, commits)
    }
}

/// Changing only the lock of an overlay entry leaves the commit diff
/// unchanged.
proof fn lemma_commits_lock_irrelevant(s: Seq<TrackedSubstate>, i: int, e: TrackedSubstate)
    requires
        0 <= i < s.len(),
        e.substate_id == s[i].substate_id,
        e.value == s[i].value,
        e.base_size == s[i].base_size,
        e.written == s[i].written,
    ensures
        commits_of(s.update(i, e)) == commits_of(s),
    decreases s.len(),
{
    let s2 = s.update(i, e);
    if s.len() > 0 {
        if i == s.len() - 1 {
            assert(s2.drop_last() =~= s.drop_last());
            assert(s2.last() == e);
        } else {
            assert(s2.drop_last() =~= s.drop_last().update(i, e));
            lemma_commits_lock_irrelevant(s.drop_last(), i, e);
            assert(s2.last() == s.last());
        }
    }
}

/// Changing only the lock of an overlay entry leaves the update batch
/// unchanged.
proof fn lemma_updates_lock_irrelevant(s: Seq<TrackedSubstate>, i: int, e: TrackedSubstate)
    requires
        0 <= i < s.len(),
        e.substate_id == s[i].substate_id,
        e.value == s[i].value,
        e.base_size == s[i].base_size,
        e.written == s[i].written,
    ensures
        updates_of(s.update(i, e)) == updates_of(s),
    decreases s.len(),
{
    let s2 = s.update(i, e);
    if s.len() > 0 {
        if i == s.len() - 1 {
            assert(s2.drop_last() =~= s.drop_last());
            assert(s2.last() == e);
        } else {
            assert(s2.drop_last() =~= s.drop_last().update(i, e));
            lemma_updates_lock_irrelevant(s.drop_last(), i, e);
            assert(s2.last() == s.last());
        }
    }
}

/// A mutable lock is exclusive: while one is held on a substate, any
/// further acquisition on the same substate fails, and while any lock is
/// held, a mutable acquisition fails.
pub proof fn lemma_lock_exclusivity(t: Track, id: SubstateId)
    ensures
        t.spec_lock(id) == LockState::Write && t.spec_get_v(id) is Some ==> t.spec_acquire_error(
            id,
            true,
        ) == Some(TrackError::SubstateLocked(id)) && t.spec_acquire_error(id, false) == Some(
            TrackError::SubstateLocked(id),
        ),
        t.spec_lock(id) != LockState::Free ==> t.spec_acquire_error(id, true) is Some,
{
}


/// Whether `v` holds the key `k`.
fn key_list_contains(v: &Vec<SubstateKey>, k: SubstateKey) -> (r: bool)
    ensures
        r == v@.contains(k),
{
    let count: usize = v.len();
    let mut i: usize = 0;
    while i < count
        invariant
            i <= count,
            count == v@.len(),
            forall|j: int| 0 <= j < i ==> v@[j] != k,
        decreases count - i,
    {
        if v[i] == k {
            return true;
        }
        i = i + 1;
    }
    false
}


/// The explicit sort order of sorted-index keys: ascending by sort
/// prefix, then by key; keys of other shapes are not ordered.
pub open spec fn sorted_key_le(a: SubstateKey, b: SubstateKey) -> bool {
    match (a, b) {
        (SubstateKey::SortedEntry(p1, k1), SubstateKey::SortedEntry(p2, k2)) => p1 < p2 || (p1
            == p2 && k1 <= k2),
        _ => true,
    }
}

fn sorted_key_le_exec(a: SubstateKey, b: SubstateKey) -> (r: bool)
    ensures
        r == sorted_key_le(a, b),
{
    match (a, b) {
        (SubstateKey::SortedEntry(p1, k1), SubstateKey::SortedEntry(p2, k2)) => {
            p1 < p2 || (p1 == p2 && k1 <= k2)
        },
        _ => true,
    }
}

/// The sort order is total on sorted-index keys.
proof fn lemma_sorted_key_total(a: SubstateKey, b: SubstateKey)
    ensures
        sorted_key_le(a, b) || sorted_key_le(b, a),
{
}

} // verus!
