//! The backing substate store: a plain key-value mapping from substate
//! ids to values, read through `get_substate` and advanced only by
//! committing a transaction's update batch.  The store itself needs no
//! locking: the overlay above it provides all transactional semantics.

use vstd::prelude::*;
use crate::types::{SubstateId, SubstateValue};

verus! {

/// One entry of a committed update batch: a new value, or `None` for a
/// deletion.
#[derive(Debug, Clone, PartialEq, Eq)]
pub struct DatabaseUpdate {
    pub substate_id: SubstateId,
    pub value: Option<SubstateValue>,
}

/// The effect of an update batch on one substate id: the last update for
/// that id decides; with none, the base value stands.
pub open spec fn spec_apply_updates(
    base: Option<SubstateValue>,
    updates: Seq<DatabaseUpdate>,
    id: SubstateId,
) -> Option<SubstateValue>
    decreases updates.len(),
{
    if updates.len() == 0 {
        base
    } else if updates.last().substate_id == id {
        updates.last().value
    } else {
        spec_apply_updates(base, updates.drop_last(), id)
    }
}

/// An in-memory substate store.
#[derive(Debug, Clone, PartialEq, Eq)]
pub struct SubstateStore {
    pub entries: Vec<(SubstateId, SubstateValue)>,
}

impl SubstateStore {
    /// Every substate id occurs at most once.
    pub open spec fn wf(self) -> bool {
        forall|i: int, j: int|
            0 <= i < j < self.entries@.len() ==> (#[trigger] self.entries@[i]).0 != (
            #[trigger] self.entries@[j]).0
    }

    pub open spec fn spec_contains(self, id: SubstateId) -> bool {
        exists|i: int| 0 <= i < self.entries@.len() && (#[trigger] self.entries@[i]).0 == id
    }

    pub open spec fn spec_index_of(self, id: SubstateId) -> int {
        choose|i: int| 0 <= i < self.entries@.len() && (#[trigger] self.entries@[i]).0 == id
    }

    /// The value stored under `id`, if any.
    pub open spec fn spec_get(self, id: SubstateId) -> Option<SubstateValue> {
        if self.spec_contains(id) {
            Some(self.entries@[self.spec_index_of(id)].1)
        } else {
            None
        }
    }

    /// In a well-formed store, the entry at position `i` is the one
    /// `spec_get` yields for its id.
    pub proof fn lemma_index(self, i: int)
        requires
            self.wf(),
            0 <= i < self.entries@.len(),
        ensures
            self.spec_contains(self.entries@[i].0),
            self.spec_index_of(self.entries@[i].0) == i,
            self.spec_get(self.entries@[i].0) == Some(self.entries@[i].1),
    {
        assert(self.spec_contains(self.entries@[i].0));
        let k = self.spec_index_of(self.entries@[i].0);
        if k < i {
            assert(self.entries@[k].0 != self.entries@[i].0);
        } else if k > i {
            assert(self.entries@[i].0 != self.entries@[k].0);
        }
    }

    pub fn new() -> (r: SubstateStore)
        ensures
            r.wf(),
            forall|id: SubstateId| #[trigger] r.spec_get(id) is None,
    {
        SubstateStore { entries: Vec::new() }
    }

    /// Position of `id` among the entries, if present.
    fn find(&self, id: SubstateId) -> (r: Option<usize>)
        requires
            self.wf(),
        ensures
            match r {
                Some(i) => i < self.entries@.len() && self.entries@[i as int].0 == id
                    && self.spec_contains(id) && self.spec_index_of(id) == i,
                None => !self.spec_contains(id),
            },
    {
        let n: usize = self.entries.len();
        let mut i: usize = 0;
        while i < n
            invariant
                i <= n,
                n == self.entries@.len(),
                self.wf(),
                forall|j: int| 0 <= j < i ==> (#[trigger] self.entries@[j]).0 != id,
            decreases n - i,
        {
            if self.entries[i].0 == id {
                proof {
                    self.lemma_index(i as int);
                }
                return Some(i);
            }
            i = i + 1;
        }
        None
    }

    /// Reads the substate stored under `id`.
    pub fn get_substate(&self, id: SubstateId) -> (r: Option<&SubstateValue>)
        requires
            self.wf(),
        ensures
            match r {
                Some(v) => self.spec_get(id) == Some(*v),
                None => self.spec_get(id) is None,
            },
    {
        match self.find(id) {
            Some(i) => Some(&self.entries[i].1),
            None => None,
        }
    }

    /// Stores `value` under `id`, replacing any previous value.
    pub fn set_substate(&mut self, id: SubstateId, value: SubstateValue)
        requires
            old(self).wf(),
        ensures
            final(self).wf(),
            final(self).spec_get(id) == Some(value),
            forall|other: SubstateId|
                other != id ==> #[trigger] final(self).spec_get(other) == old(self).spec_get(
                    other,
                ),
    {
        let found = self.find(id);
        match found {
            Some(i) => {
                self.entries.set(i, (id, value));
                proof {
                    assert(self.entries@[i as int].0 == id);
                    self.lemma_index(i as int);
                    assert forall|other: SubstateId| other != id implies #[trigger] final(self)
                        .spec_get(other) == old(self).spec_get(other) by {
                        if old(self).spec_contains(other) {
                            let k = old(self).spec_index_of(other);
                            assert(old(self).entries@[k].0 == other);
                            assert(self.entries@[k].0 == other);
                            self.lemma_index(k);
                        } else {
                            assert(!final(self).spec_contains(other));
                        }
                    }
                }
            },
            None => {
                self.entries.push((id, value));
                proof {
                    let n = old(self).entries@.len() as int;
                    assert(self.entries@[n].0 == id);
                    self.lemma_index(n);
                    assert forall|other: SubstateId| other != id implies #[trigger] final(self)
                        .spec_get(other) == old(self).spec_get(other) by {
                        if old(self).spec_contains(other) {
                            let k = old(self).spec_index_of(other);
                            assert(old(self).entries@[k].0 == other);
                            assert(self.entries@[k].0 == other);
                            self.lemma_index(k);
                        } else {
                            assert(!final(self).spec_contains(other));
                        }
                    }
                }
            },
        }
    }

    /// Removes the substate stored under `id`, if any.
    pub fn remove_substate(&mut self, id: SubstateId)
        requires
            old(self).wf(),
        ensures
            final(self).wf(),
            final(self).spec_get(id) is None,
            forall|other: SubstateId|
                other != id ==> #[trigger] final(self).spec_get(other) == old(self).spec_get(
                    other,
                ),
    {
        let found = self.find(id);
        match found {
            Some(i) => {
                self.entries.remove(i);
                proof {
                    let s0 = old(self).entries@;
                    let s1 = self.entries@;
                    let iv = i as int;
                    assert(forall|j: int|
                        0 <= j < s1.len() ==> #[trigger] s1[j] == if j < iv {
                            s0[j]
                        } else {
                            s0[j + 1]
                        });
                    assert(final(self).wf());
                    assert(!final(self).spec_contains(id)) by {
                        if final(self).spec_contains(id) {
                            let k = final(self).spec_index_of(id);
                            assert(s1[k].0 == id);
                            if k < iv {
                                assert(s0[k].0 == id && s0[iv].0 == id);
                            } else {
                                assert(s0[k + 1].0 == id && s0[iv].0 == id);
                            }
                        }
                    }
                    assert forall|other: SubstateId| other != id implies #[trigger] final(self)
                        .spec_get(other) == old(self).spec_get(other) by {
                        if old(self).spec_contains(other) {
                            let k = old(self).spec_index_of(other);
                            assert(s0[k].0 == other);
                            old(self).lemma_index(k);
                            if k < iv {
                                assert(s1[k].0 == other);
                                self.lemma_index(k);
                            } else {
                                assert(k != iv);
                                assert(s1[k - 1].0 == other);
                                self.lemma_index(k - 1);
                            }
                        } else {
                            assert(!final(self).spec_contains(other)) by {
                                if final(self).spec_contains(other) {
                                    let m = final(self).spec_index_of(other);
                                    assert(s1[m].0 == other);
                                    if m < iv {
                                        assert(s0[m].0 == other);
                                    } else {
                                        assert(s0[m + 1].0 == other);
                                    }
                                }
                            }
                        }
                    }
                }
            },
            None => {},
        }
    }

    /// Applies a committed update batch, in order.
    pub fn commit(&mut self, updates: Vec<DatabaseUpdate>)
        requires
            old(self).wf(),
        ensures
            final(self).wf(),
            forall|id: SubstateId|
                #[trigger] final(self).spec_get(id) == spec_apply_updates(
                    old(self).spec_get(id),
                    updates@,
                    id,
                ),
    {
        let ghost all = updates@;
        let mut updates = updates;
        let ghost total = all.len() as int;
        while updates.len() > 0
            invariant
                self.wf(),
                updates@.len() <= all.len(),
                updates@ =~= all.skip(total - updates@.len()),
                total == all.len() as int,
                forall|id: SubstateId|
                    #[trigger] self.spec_get(id) == spec_apply_updates(
                        old(self).spec_get(id),
                        all.take(total - updates@.len()),
                        id,
                    ),
            decreases updates@.len(),
        {
            let ghost pre = *self;
            let ghost done = total - updates@.len();
            let update = updates.remove(0);
            proof {
                assert(update == all[done]);
                assert(updates@ =~= all.skip(done + 1));
            }
            match update.value {
                Some(v) => {
                    self.set_substate(update.substate_id, v);
                },
                None => {
                    self.remove_substate(update.substate_id);
                },
            }
            proof {
                let t1 = all.take(done + 1);
                assert(t1.last() == all[done]);
                assert(t1.drop_last() =~= all.take(done));
                assert forall|id: SubstateId|
                    #[trigger] self.spec_get(id) == spec_apply_updates(
                        old(self).spec_get(id),
                        t1,
                        id,
                    ) by {
                    if all[done].substate_id == id {
                    } else {
                        assert(self.spec_get(id) == pre.spec_get(id));
                    }
                }
            }
        }
        proof {
            assert(all.take(total) =~= all);
        }
    }
}

} // verus!
