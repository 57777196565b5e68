//! The heap: transient storage for nodes that live in the call stack and
//! have not been committed to the store.  Nodes enter the heap when a
//! frame creates them and leave it when they are dropped or globalized.

use vstd::prelude::*;
use crate::types::{NodeId, SubstateId, SubstateValue};

verus! {

/// One heap-resident node: its id and its substates.
#[derive(Debug)]
pub struct HeapNode {
    pub id: NodeId,
    pub substates: Vec<(SubstateId, SubstateValue)>,
}

/// First position of `id` in a substate list, by `choose`.
pub open spec fn sub_contains(s: Seq<(SubstateId, SubstateValue)>, id: SubstateId) -> bool {
    exists|i: int| 0 <= i < s.len() && (#[trigger] s[i]).0 == id
}

pub open spec fn sub_index_of(s: Seq<(SubstateId, SubstateValue)>, id: SubstateId) -> int {
    choose|i: int| 0 <= i < s.len() && (#[trigger] s[i]).0 == id
}

/// The value a substate list holds under `id`, if any.
pub open spec fn sub_get(s: Seq<(SubstateId, SubstateValue)>, id: SubstateId) -> Option<
    SubstateValue,
> {
    if sub_contains(s, id) {
        Some(s[sub_index_of(s, id)].1)
    } else {
        None
    }
}

/// A substate list carries each id at most once.
pub open spec fn sub_unique(s: Seq<(SubstateId, SubstateValue)>) -> bool {
    forall|i: int, j: int| 0 <= i < j < s.len() ==> (#[trigger] s[i]).0 != (#[trigger] s[j]).0
}

/// With unique ids, the entry at position `i` is the one `sub_get`
/// yields for its id.
pub proof fn lemma_sub_index(s: Seq<(SubstateId, SubstateValue)>, i: int)
    requires
        sub_unique(s),
        0 <= i < s.len(),
    ensures
        sub_contains(s, s[i].0),
        sub_index_of(s, s[i].0) == i,
        sub_get(s, s[i].0) == Some(s[i].1),
{
    assert(sub_contains(s, s[i].0));
    let k = sub_index_of(s, s[i].0);
    if k < i {
        assert(s[k].0 != s[i].0);
    } else if k > i {
        assert(s[i].0 != s[k].0);
    }
}

/// Transient node storage.
#[derive(Debug)]
pub struct Heap {
    pub nodes: Vec<HeapNode>,
}

impl Heap {
    /// Node ids are unique; within a node, substate ids are unique and
    /// belong to that node.
    pub open spec fn wf(self) -> bool {
        &&& forall|i: int, j: int|
            0 <= i < j < self.nodes@.len() ==> (#[trigger] self.nodes@[i]).id != (
            #[trigger] self.nodes@[j]).id
        &&& forall|i: int|
            0 <= i < self.nodes@.len() ==> sub_unique((#[trigger] self.nodes@[i]).substates@)
        &&& forall|i: int, k: int|
            0 <= i < self.nodes@.len() && 0 <= k < (#[trigger] self.nodes@[i]).substates@.len()
                ==> (#[trigger] self.nodes@[i].substates@[k]).0.node_id == self.nodes@[i].id
    }

    pub open spec fn spec_has_node(self, n: NodeId) -> bool {
        exists|i: int| 0 <= i < self.nodes@.len() && (#[trigger] self.nodes@[i]).id == n
    }

    pub open spec fn spec_node_index(self, n: NodeId) -> int {
        choose|i: int| 0 <= i < self.nodes@.len() && (#[trigger] self.nodes@[i]).id == n
    }

    /// The substates a node holds, as stored.
    pub open spec fn spec_node_substates(self, n: NodeId) -> Seq<(SubstateId, SubstateValue)> {
        self.nodes@[self.spec_node_index(n)].substates@
    }

    /// The substate stored under `id`, if any.
    pub open spec fn spec_get(self, id: SubstateId) -> Option<SubstateValue> {
        if self.spec_has_node(id.node_id) {
            sub_get(self.spec_node_substates(id.node_id), id)
        } else {
            None
        }
    }

    /// In a well-formed heap, the node at position `i` is the one the
    /// node-level functions yield for its id.
    pub proof fn lemma_node_index(self, i: int)
        requires
            self.wf(),
            0 <= i < self.nodes@.len(),
        ensures
            self.spec_has_node(self.nodes@[i].id),
            self.spec_node_index(self.nodes@[i].id) == i,
    {
        assert(self.spec_has_node(self.nodes@[i].id));
        let k = self.spec_node_index(self.nodes@[i].id);
        if k < i {
            assert(self.nodes@[k].id != self.nodes@[i].id);
        } else if k > i {
            assert(self.nodes@[i].id != self.nodes@[k].id);
        }
    }

    pub fn new() -> (r: Heap)
        ensures
            r.wf(),
            forall|n: NodeId| !(#[trigger] r.spec_has_node(n)),
            forall|id: SubstateId| #[trigger] r.spec_get(id) is None,
    {
        Heap { nodes: Vec::new() }
    }

    /// Position of the node `n`, if heap-resident.
    fn find_node(&self, n: NodeId) -> (r: Option<usize>)
        requires
            self.wf(),
        ensures
            match r {
                Some(i) => i < self.nodes@.len() && self.nodes@[i as int].id == n
                    && self.spec_has_node(n) && self.spec_node_index(n) == i,
                None => !self.spec_has_node(n),
            },
    {
        let count: usize = self.nodes.len();
        let mut i: usize = 0;
        while i < count
            invariant
                i <= count,
                count == self.nodes@.len(),
                self.wf(),
                forall|j: int| 0 <= j < i ==> (#[trigger] self.nodes@[j]).id != n,
            decreases count - i,
        {
            if self.nodes[i].id == n {
                proof {
                    self.lemma_node_index(i as int);
                }
                return Some(i);
            }
            i = i + 1;
        }
        None
    }

    pub fn contains_node(&self, n: NodeId) -> (r: bool)
        requires
            self.wf(),
        ensures
            r == self.spec_has_node(n),
    {
        match self.find_node(n) {
            Some(_) => true,
            None => false,
        }
    }

    /// Reads the substate stored under `id`.
    #[verifier::loop_isolation(false)]
    pub fn get_substate(&self, id: SubstateId) -> (r: Option<&SubstateValue>)
        requires
            self.wf(),
        ensures
            match r {
                Some(v) => self.spec_get(id) == Some(*v),
                None => self.spec_get(id) is None,
            },
    {
        let found = self.find_node(id.node_id);
        match found {
            Some(i) => {
                let subs = &self.nodes[i].substates;
                let m: usize = subs.len();
                let mut k: usize = 0;
                while k < m
                    invariant
                        k <= m,
                        m == subs@.len(),
                        subs@ == self.nodes@[i as int].substates@,
                        sub_unique(subs@),
                        forall|j: int| 0 <= j < k ==> (#[trigger] subs@[j]).0 != id,
                    decreases m - k,
                {
                    if subs[k].0 == id {
                        proof {
                            lemma_sub_index(subs@, k as int);
                        }
                        return Some(&subs[k].1);
                    }
                    k = k + 1;
                }
                None
            },
            None => None,
        }
    }

    /// Overwrites the substate stored under `id`, which must exist.
    pub fn put_substate(&mut self, id: SubstateId, value: SubstateValue)
        requires
            old(self).wf(),
            old(self).spec_get(id) is Some,
        ensures
            final(self).wf(),
            final(self).spec_get(id) == Some(value),
            forall|other: SubstateId|
                other != id ==> #[trigger] final(self).spec_get(other) == old(self).spec_get(
                    other,
                ),
            forall|n: NodeId|
                #[trigger] final(self).spec_has_node(n) == old(self).spec_has_node(n),
    {
        let found = self.find_node(id.node_id);
        let i = match found {
            Some(i) => i,
            None => {
                proof {
                    assert(false);
                }
                return ;
            },
        };
        let mut entry = self.nodes.remove(i);
        let m: usize = entry.substates.len();
        let ghost subs0 = entry.substates@;
        let mut k: usize = 0;
        while k < m
            invariant
                k <= m,
                m == subs0.len(),
                entry.substates@ == subs0,
                sub_unique(subs0),
                forall|j: int| 0 <= j < k ==> (#[trigger] subs0[j]).0 != id,
            ensures
                k <= m,
                entry.substates@ == subs0,
                k < m ==> subs0[k as int].0 == id,
                k == m ==> forall|j: int| 0 <= j < m ==> (#[trigger] subs0[j]).0 != id,
            decreases m - k,
        {
            if entry.substates[k].0 == id {
                break ;
            }
            k = k + 1;
        }
        proof {
            assert(sub_contains(subs0, id)) by {
                assert(old(self).spec_get(id) is Some);
            }
            assert(k < m) by {
                if k >= m {
                    let p = sub_index_of(subs0, id);
                    assert(subs0[p].0 == id);
                }
            }
            lemma_sub_index(subs0, k as int);
        }
        entry.substates.set(k, (id, value));
        proof {
            assert(entry.substates@ =~= subs0.update(k as int, (id, value)));
        }
        self.nodes.insert(i, entry);
        proof {
            let s0 = old(self).nodes@;
            let s1 = self.nodes@;
            assert(s1 =~= s0.update(i as int, s1[i as int]));
            assert(s1[i as int].id == id.node_id);
            assert(s1[i as int].substates@ == subs0.update(k as int, (id, value)));
            assert(final(self).wf()) by {
                assert(forall|j: int| 0 <= j < s1.len() ==> (#[trigger] s1[j]).id == s0[j].id);
                assert(sub_unique(s1[i as int].substates@)) by {
                    assert(forall|p: int|
                        0 <= p < subs0.len() ==> (#[trigger] s1[i as int].substates@[p]).0
                            == subs0[p].0);
                }
            }
            self.lemma_node_index(i as int);
            lemma_sub_index(s1[i as int].substates@, k as int);
            assert(final(self).spec_get(id) == Some(value));
            assert forall|other: SubstateId| other != id implies #[trigger] final(self).spec_get(
                other,
            ) == old(self).spec_get(other) by {
                if other.node_id == id.node_id {
                    assert(old(self).spec_node_index(other.node_id) == i as int) by {
                        old(self).lemma_node_index(i as int);
                    }
                    if sub_contains(subs0, other) {
                        let p = sub_index_of(subs0, other);
                        assert(subs0[p].0 == other);
                        assert(p != k as int);
                        assert(s1[i as int].substates@[p].0 == other);
                        lemma_sub_index(s1[i as int].substates@, p);
                        lemma_sub_index(subs0, p);
                    } else {
                        assert(!sub_contains(s1[i as int].substates@, other)) by {
                            if sub_contains(s1[i as int].substates@, other) {
                                let p = sub_index_of(s1[i as int].substates@, other);
                                assert(s1[i as int].substates@[p].0 == other);
                                assert(p != k as int);
                                assert(subs0[p].0 == other);
                            }
                        }
                    }
                } else {
                    if old(self).spec_has_node(other.node_id) {
                        let q = old(self).spec_node_index(other.node_id);
                        assert(s0[q].id == other.node_id);
                        assert(q != i as int);
                        assert(s1[q].id == other.node_id);
                        assert(s1[q].substates@ == s0[q].substates@);
                        self.lemma_node_index(q);
                        old(self).lemma_node_index(q);
                    } else {
                        assert(!final(self).spec_has_node(other.node_id)) by {
                            if final(self).spec_has_node(other.node_id) {
                                let q = final(self).spec_node_index(other.node_id);
                                assert(s1[q].id == other.node_id);
                                assert(s0[q].id == other.node_id);
                            }
                        }
                    }
                }
            }
            assert forall|n: NodeId| #[trigger] final(self).spec_has_node(n) == old(self)
                .spec_has_node(n) by {
                assert(forall|j: int| 0 <= j < s1.len() ==> (#[trigger] s1[j]).id == s0[j].id);
                if old(self).spec_has_node(n) {
                    let q = old(self).spec_node_index(n);
                    assert(s1[q].id == n);
                } else {
                    if final(self).spec_has_node(n) {
                        let q = final(self).spec_node_index(n);
                        assert(s0[q].id == n);
                    }
                }
            }
        }
    }

    /// Registers a new node with its initial substates.  The caller
    /// supplies each substate id at most once, all under `node`.
    pub fn insert_node(&mut self, node: NodeId, substates: Vec<(SubstateId, SubstateValue)>)
        requires
            old(self).wf(),
            !old(self).spec_has_node(node),
            forall|i: int|
                0 <= i < substates@.len() ==> (#[trigger] substates@[i]).0.node_id == node,
            sub_unique(substates@),
        ensures
            final(self).wf(),
            final(self).spec_has_node(node),
            final(self).spec_node_substates(node) == substates@,
            forall|n: NodeId|
                n != node ==> #[trigger] final(self).spec_has_node(n) == old(self).spec_has_node(
                    n,
                ),
            forall|id: SubstateId|
                id.node_id == node ==> #[trigger] final(self).spec_get(id) == sub_get(
                    substates@,
                    id,
                ),
            forall|id: SubstateId|
                id.node_id != node ==> #[trigger] final(self).spec_get(id) == old(self).spec_get(
                    id,
                ),
    {
        let ghost subs = substates@;
        self.nodes.push(HeapNode { id: node, substates });
        proof {
            let s0 = old(self).nodes@;
            let s1 = self.nodes@;
            let m = s0.len() as int;
            assert(s1[m].id == node);
            assert(final(self).wf()) by {
                assert forall|i: int, j: int| 0 <= i < j < s1.len() implies (
                #[trigger] s1[i]).id != (#[trigger] s1[j]).id by {
                    if j == m {
                        if s1[i].id == node {
                            assert(s0[i].id == node);
                            old(self).lemma_node_index(i);
                        }
                    }
                }
            }
            self.lemma_node_index(m);
            assert(final(self).spec_node_substates(node) == subs);
            assert forall|n: NodeId| n != node implies #[trigger] final(self).spec_has_node(n)
                == old(self).spec_has_node(n) by {
                if old(self).spec_has_node(n) {
                    let q = old(self).spec_node_index(n);
                    assert(s1[q].id == n);
                } else {
                    if final(self).spec_has_node(n) {
                        let q = final(self).spec_node_index(n);
                        assert(q != m);
                        assert(s0[q].id == n);
                    }
                }
            }
            assert forall|id: SubstateId| id.node_id != node implies #[trigger] final(self)
                .spec_get(id) == old(self).spec_get(id) by {
                if old(self).spec_has_node(id.node_id) {
                    let q = old(self).spec_node_index(id.node_id);
                    assert(s1[q].id == id.node_id);
                    assert(q != m);
                    self.lemma_node_index(q);
                    old(self).lemma_node_index(q);
                    assert(s1[q].substates@ == s0[q].substates@);
                }
            }
        }
    }

    /// Removes a node and hands back all of its substates, as stored.
    /// Removing an absent node yields an empty list.
    pub fn remove_node(&mut self, node: NodeId) -> (r: Vec<(SubstateId, SubstateValue)>)
        requires
            old(self).wf(),
        ensures
            final(self).wf(),
            !final(self).spec_has_node(node),
            old(self).spec_has_node(node) ==> r@ == old(self).spec_node_substates(node)
                && final(self).nodes@.len() == old(self).nodes@.len() - 1,
            !old(self).spec_has_node(node) ==> r@ =~= Seq::<(SubstateId, SubstateValue)>::empty()
                && *final(self) == *old(self),
            forall|n: NodeId|
                n != node ==> #[trigger] final(self).spec_has_node(n) == old(self).spec_has_node(
                    n,
                ),
            forall|id: SubstateId|
                id.node_id == node ==> #[trigger] final(self).spec_get(id) is None,
            forall|id: SubstateId|
                id.node_id != node ==> #[trigger] final(self).spec_get(id) == old(self).spec_get(
                    id,
                ),
    {
        let found = self.find_node(node);
        match found {
            Some(i) => {
                let entry = self.nodes.remove(i);
                proof {
                    let s0 = old(self).nodes@;
                    let s1 = self.nodes@;
                    let iv = i as int;
                    assert(forall|j: int|
                        0 <= j < s1.len() ==> #[trigger] s1[j] == if j < iv {
                            s0[j]
                        } else {
                            s0[j + 1]
                        });
                    assert(final(self).wf());
                    assert(!final(self).spec_has_node(node)) by {
                        if final(self).spec_has_node(node) {
                            let k = final(self).spec_node_index(node);
                            assert(s1[k].id == node);
                            if k < iv {
                                assert(s0[k].id == node && s0[iv].id == node);
                            } else {
                                assert(s0[k + 1].id == node && s0[iv].id == node);
                            }
                        }
                    }
                    assert forall|n: NodeId| n != node implies #[trigger] final(self)
                        .spec_has_node(n) == old(self).spec_has_node(n) by {
                        if old(self).spec_has_node(n) {
                            let k = old(self).spec_node_index(n);
                            assert(s0[k].id == n);
                            assert(k != iv);
                            if k < iv {
                                assert(s1[k].id == n);
                            } else {
                                assert(s1[k - 1].id == n);
                            }
                        } else {
                            if final(self).spec_has_node(n) {
                                let k = final(self).spec_node_index(n);
                                assert(s1[k].id == n);
                                if k < iv {
                                    assert(s0[k].id == n);
                                } else {
                                    assert(s0[k + 1].id == n);
                                }
                            }
                        }
                    }
                    assert forall|id: SubstateId| id.node_id != node implies #[trigger] final(self).spec_get(id) == old(self).spec_get(id) by {
                        if old(self).spec_has_node(id.node_id) {
                            let k = old(self).spec_node_index(id.node_id);
                            assert(s0[k].id == id.node_id);
                            assert(k != iv);
                            if k < iv {
                                assert(s1[k].id == id.node_id);
                                self.lemma_node_index(k);
                                assert(s1[k].substates@ == s0[k].substates@);
                            } else {
                                assert(s1[k - 1].id == id.node_id);
                                self.lemma_node_index(k - 1);
                                assert(s1[k - 1].substates@ == s0[k].substates@);
                            }
                        }
                    }
                }
                entry.substates
            },
            None => {
                let empty: Vec<(SubstateId, SubstateValue)> = Vec::new();
                empty
            },
        }
    }
}


/// The re-keying of one entry onto a destination partition: the key is
/// kept, the node and partition become the destination's.
pub open spec fn rekey_entry(
    e: (SubstateId, SubstateValue),
    dst: NodeId,
    dst_p: crate::types::PartitionNumber,
) -> (SubstateId, SubstateValue) {
    (SubstateId { node_id: dst, partition: dst_p, key: e.0.key }, e.1)
}

/// Whether an entry belongs to the moved partition.
pub open spec fn in_partition(
    e: (SubstateId, SubstateValue),
    p: crate::types::PartitionNumber,
) -> bool {
    e.0.partition == p
}

/// Every element of a filtered entry list occurs in the source list.
proof fn lemma_filter_subset_entries(
    all: Seq<(SubstateId, SubstateValue)>,
    pred: spec_fn((SubstateId, SubstateValue)) -> bool,
    i: int,
)
    requires
        0 <= i < all.filter(pred).len(),
    ensures
        all.contains(all.filter(pred)[i]),
    decreases all.len(),
{
    reveal(Seq::filter);
    if all.len() > 0 {
        let rest = all.drop_last();
        let f = all.filter(pred);
        let frest = rest.filter(pred);
        if pred(all.last()) {
            assert(f == frest.push(all.last()));
            if i < f.len() - 1 {
                lemma_filter_subset_entries(rest, pred, i);
                let k = choose|k: int| 0 <= k < rest.len() && rest[k] == frest[i];
                assert(all[k] == f[i]);
            } else {
                assert(all[all.len() - 1] == f[i]);
            }
        } else {
            assert(f == frest);
            lemma_filter_subset_entries(rest, pred, i);
            let k = choose|k: int| 0 <= k < rest.len() && rest[k] == frest[i];
            assert(all[k] == f[i]);
        }
    }
}

/// Two positions of a filtered duplicate-free entry list hold entries
/// with distinct ids.
proof fn lemma_filter_unique_entries(
    all: Seq<(SubstateId, SubstateValue)>,
    pred: spec_fn((SubstateId, SubstateValue)) -> bool,
    i: int,
    j: int,
)
    requires
        sub_unique(all),
        0 <= i < j < all.filter(pred).len(),
    ensures
        all.filter(pred)[i].0 != all.filter(pred)[j].0,
    decreases all.len(),
{
    reveal(Seq::filter);
    if all.len() > 0 {
        let rest = all.drop_last();
        let f = all.filter(pred);
        let frest = rest.filter(pred);
        assert(sub_unique(rest)) by {
            assert(forall|p: int| 0 <= p < rest.len() ==> #[trigger] rest[p] == all[p]);
        }
        if pred(all.last()) {
            assert(f == frest.push(all.last()));
            if j < f.len() - 1 {
                lemma_filter_unique_entries(rest, pred, i, j);
            } else {
                lemma_filter_subset_entries(rest, pred, i);
                let fi = frest[i];
                assert(rest.contains(fi));
                let k = choose|k: int| 0 <= k < rest.len() && rest[k] == fi;
                assert(all[k] == fi);
                assert(all[all.len() - 1] == all.last());
                assert(all[k].0 != all.last().0);
            }
        } else {
            assert(f == frest);
            lemma_filter_unique_entries(rest, pred, i, j);
        }
    }
}

impl Heap {
    /// Re-parents a whole partition: every substate of `(src, src_p)`
    /// moves, key for key, under `(dst, dst_p)`.  The destination
    /// partition must be empty, so the move can never clobber a
    /// substate.
    #[verifier::loop_isolation(false)]
    pub fn move_partition(
        &mut self,
        src: NodeId,
        src_p: crate::types::PartitionNumber,
        dst: NodeId,
        dst_p: crate::types::PartitionNumber,
    )
        requires
            old(self).wf(),
            src != dst,
            old(self).spec_has_node(src),
            old(self).spec_has_node(dst),
            forall|k: crate::types::SubstateKey|
                old(self).spec_get(SubstateId { node_id: dst, partition: dst_p, key: k })
                    is None,
        ensures
            final(self).wf(),
            forall|n: NodeId|
                #[trigger] final(self).spec_has_node(n) == old(self).spec_has_node(n),
            forall|k: crate::types::SubstateKey|
                #[trigger] final(self).spec_get(
                    SubstateId { node_id: src, partition: src_p, key: k },
                ) is None,
            forall|k: crate::types::SubstateKey|
                #[trigger] final(self).spec_get(
                    SubstateId { node_id: dst, partition: dst_p, key: k },
                ) == old(self).spec_get(SubstateId { node_id: src, partition: src_p, key: k }),
            forall|id: SubstateId|
                id.node_id != src && id.node_id != dst ==> #[trigger] final(self).spec_get(id)
                    == old(self).spec_get(id),
            forall|id: SubstateId|
                id.node_id == src && id.partition != src_p ==> #[trigger] final(self).spec_get(
                    id,
                ) == old(self).spec_get(id),
            forall|id: SubstateId|
                id.node_id == dst && id.partition != dst_p ==> #[trigger] final(self).spec_get(
                    id,
                ) == old(self).spec_get(id),
    {
        let keeppred = |e: (SubstateId, SubstateValue)| e.0.partition != src_p;
        let movepred = |e: (SubstateId, SubstateValue)| e.0.partition == src_p;

        // Split the source node's substates.
        let si = match self.find_node(src) {
            Some(i) => i,
            None => {
                proof {
                    assert(false);
                }
                return ;
            },
        };
        let mut se = self.nodes.remove(si);
        let ghost se0 = se.substates@;
        let mut olds: Vec<(SubstateId, SubstateValue)> = Vec::new();
        core::mem::swap(&mut se.substates, &mut olds);
        let mut moved: Vec<(SubstateId, SubstateValue)> = Vec::new();
        let ghost total = se0.len() as int;
        proof {
            reveal(Seq::filter);
            assert(se0.take(0) =~= Seq::<(SubstateId, SubstateValue)>::empty());
        }
        while olds.len() > 0
            invariant
                se.id == src,
                olds@.len() <= se0.len(),
                olds@ =~= se0.skip(total - olds@.len()),
                se.substates@ =~= se0.take(total - olds@.len()).filter(
                    |e: (SubstateId, SubstateValue)| e.0.partition != src_p,
                ),
                moved@ =~= se0.take(total - olds@.len()).filter(
                    |e: (SubstateId, SubstateValue)| e.0.partition == src_p,
                ).map_values(
                    |e: (SubstateId, SubstateValue)|
                        (SubstateId { node_id: dst, partition: dst_p, key: e.0.key }, e.1),
                ),
            decreases olds@.len(),
        {
            let ghost done = total - olds@.len();
            let entry = olds.remove(0);
            proof {
                assert(entry == se0[done]);
                assert(olds@ =~= se0.skip(done + 1));
                let t1 = se0.take(done + 1);
                assert(t1.drop_last() =~= se0.take(done));
                assert(t1.last() == se0[done]);
                reveal(Seq::filter);
            }
            if entry.0.partition == src_p {
                let key = entry.0.key;
                moved.push((SubstateId::new(dst, dst_p, key), entry.1));
                proof {
                    let keep = |e: (SubstateId, SubstateValue)| e.0.partition != src_p;
                    let mv = |e: (SubstateId, SubstateValue)| e.0.partition == src_p;
                    let rk = |e: (SubstateId, SubstateValue)|
                        (SubstateId { node_id: dst, partition: dst_p, key: e.0.key }, e.1);
                    assert(se0.take(done + 1).filter(mv) =~= se0.take(done).filter(mv).push(
                        se0[done],
                    ));
                    assert(se0.take(done + 1).filter(mv).map_values(rk) =~= se0.take(done).filter(
                        mv,
                    ).map_values(rk).push(rk(se0[done])));
                }
            } else {
                se.substates.push(entry);
            }
        }
        proof {
            assert(se0.take(total) =~= se0);
        }
        let ghost kept = se.substates@;
        let ghost movedseq = moved@;
        self.nodes.insert(si, se);
        let ghost mid = *self;
        proof {
            let keep = |e: (SubstateId, SubstateValue)| e.0.partition != src_p;
            let mv = |e: (SubstateId, SubstateValue)| e.0.partition == src_p;
            assert(mid.nodes@ =~= old(self).nodes@.update(si as int, mid.nodes@[si as int]));
            assert(mid.nodes@[si as int].id == src);
            assert(mid.nodes@[si as int].substates@ == kept);
            se0.filter_lemma(keep);
            assert(mid.wf()) by {
                assert(forall|j: int|
                    0 <= j < mid.nodes@.len() ==> (#[trigger] mid.nodes@[j]).id == old(
                        self,
                    ).nodes@[j].id);
                assert(sub_unique(kept)) by {
                    assert forall|p: int, q: int| 0 <= p < q < kept.len() implies (
                    #[trigger] kept[p]).0 != (#[trigger] kept[q]).0 by {
                        lemma_filter_unique_entries(se0, keep, p, q);
                    }
                }
                assert forall|k2: int|
                    0 <= k2 < kept.len() implies (#[trigger] kept[k2]).0.node_id == src by {
                    lemma_filter_subset_entries(se0, keep, k2);
                    let m = choose|m: int| 0 <= m < se0.len() && se0[m] == kept[k2];
                    assert(se0[m].0.node_id == src);
                }
            }
            mid.lemma_node_index(si as int);
        }

        // Append the re-keyed entries to the destination node.
        let di = match self.find_node(dst) {
            Some(i) => i,
            None => {
                proof {
                    assert(mid.spec_has_node(dst)) by {
                        let q = old(self).spec_node_index(dst);
                        assert(old(self).nodes@[q].id == dst);
                        assert(mid.nodes@[q].id == dst);
                    }
                    assert(false);
                }
                return ;
            },
        };
        let mut de = self.nodes.remove(di);
        let ghost d0 = de.substates@;
        let mut moved = moved;
        while moved.len() > 0
            invariant
                moved@.len() <= movedseq.len(),
                moved@ =~= movedseq.skip(movedseq.len() - moved@.len()),
                de.substates@ =~= d0 + movedseq.take(movedseq.len() - moved@.len()),
                de.id == dst,
            decreases moved@.len(),
        {
            let ghost done = movedseq.len() - moved@.len() as int;
            let entry = moved.remove(0);
            proof {
                assert(entry == movedseq[done]);
                assert(moved@ =~= movedseq.skip(done + 1));
                assert(movedseq.take(done + 1) =~= movedseq.take(done).push(movedseq[done]));
            }
            de.substates.push(entry);
        }
        proof {
            assert(movedseq.take(movedseq.len() as int) =~= movedseq);
        }
        self.nodes.insert(di, de);
        proof {
            let keep = |e: (SubstateId, SubstateValue)| e.0.partition != src_p;
            let mv = |e: (SubstateId, SubstateValue)| e.0.partition == src_p;
            let rk = |e: (SubstateId, SubstateValue)|
                (SubstateId { node_id: dst, partition: dst_p, key: e.0.key }, e.1);
            let d1 = d0 + movedseq;
            let fmv = se0.filter(mv);
            assert(self.nodes@ =~= mid.nodes@.update(di as int, self.nodes@[di as int]));
            assert(self.nodes@[di as int].id == dst);
            assert(self.nodes@[di as int].substates@ == d1);
            assert(movedseq == fmv.map_values(rk));
            se0.filter_lemma(mv);

            // The destination partition was empty: the old destination
            // entries carry other partitions.
            assert(mid.spec_node_index(dst) == di as int) by {
                mid.lemma_node_index(di as int);
            }
            assert(old(self).spec_has_node(dst));
            let odi = old(self).spec_node_index(dst);
            assert(odi == di as int) by {
                old(self).lemma_node_index(di as int);
                assert(old(self).nodes@[di as int].id == mid.nodes@[di as int].id);
            }
            assert(di != si) by {
                assert(mid.nodes@[di as int].id == dst);
                assert(mid.nodes@[si as int].id == src);
            }
            assert(d0 == old(self).nodes@[odi].substates@);
            assert forall|p: int| 0 <= p < d0.len() implies (#[trigger] d0[p]).0.partition
                != dst_p by {
                if d0[p].0.partition == dst_p {
                    old(self).lemma_index_entry(odi, p);
                    assert(old(self).spec_get(d0[p].0) is Some);
                    assert(d0[p].0.node_id == dst);
                    assert(d0[p].0 == SubstateId {
                        node_id: dst,
                        partition: dst_p,
                        key: d0[p].0.key,
                    });
                    assert(old(self).spec_get(
                        SubstateId { node_id: dst, partition: dst_p, key: d0[p].0.key },
                    ) is None);
                }
            }

            assert(self.wf()) by {
                assert(forall|j: int|
                    0 <= j < self.nodes@.len() ==> (#[trigger] self.nodes@[j]).id
                        == mid.nodes@[j].id);
                assert(sub_unique(d1)) by {
                    assert forall|p: int, q: int| 0 <= p < q < d1.len() implies (
                    #[trigger] d1[p]).0 != (#[trigger] d1[q]).0 by {
                        if q < d0.len() {
                        } else if p < d0.len() {
                            assert(d1[q] == movedseq[q - d0.len()]);
                            assert(d1[q].0.partition == dst_p) by {
                                assert(movedseq[q - d0.len()] == rk(fmv[q - d0.len()]));
                            }
                            assert(d1[p].0.partition != dst_p);
                        } else {
                            assert(d1[p] == rk(fmv[p - d0.len()]));
                            assert(d1[q] == rk(fmv[q - d0.len()]));
                            lemma_filter_unique_entries(se0, mv, p - d0.len(), q - d0.len());
                            assert(fmv[p - d0.len()].0.partition == src_p);
                            assert(fmv[q - d0.len()].0.partition == src_p);
                            assert(fmv[p - d0.len()].0.node_id == fmv[q - d0.len()].0.node_id)
                                by {
                                lemma_filter_subset_entries(se0, mv, p - d0.len());
                                lemma_filter_subset_entries(se0, mv, q - d0.len());
                                let m1 = choose|m: int|
                                    0 <= m < se0.len() && se0[m] == fmv[p - d0.len()];
                                let m2 = choose|m: int|
                                    0 <= m < se0.len() && se0[m] == fmv[q - d0.len()];
                                assert(se0[m1].0.node_id == src);
                                assert(se0[m2].0.node_id == src);
                            }
                            assert(fmv[p - d0.len()].0.key != fmv[q - d0.len()].0.key);
                        }
                    }
                }
                assert forall|k2: int|
                    0 <= k2 < d1.len() implies (#[trigger] d1[k2]).0.node_id == dst by {
                    if k2 < d0.len() {
                    } else {
                        assert(d1[k2] == rk(fmv[k2 - d0.len()]));
                    }
                }
            }
            self.lemma_node_index(di as int);
            assert(self.spec_node_index(src) == si as int) by {
                self.lemma_node_index(si as int);
            }

            // Node membership is untouched.
            assert forall|n: NodeId| #[trigger] self.spec_has_node(n) == old(self).spec_has_node(
                n,
            ) by {
                assert(forall|j: int|
                    0 <= j < self.nodes@.len() ==> (#[trigger] self.nodes@[j]).id == old(
                        self,
                    ).nodes@[j].id);
                if old(self).spec_has_node(n) {
                    let q = old(self).spec_node_index(n);
                    assert(self.nodes@[q].id == n);
                } else {
                    if self.spec_has_node(n) {
                        let q = self.spec_node_index(n);
                        assert(old(self).nodes@[q].id == n);
                    }
                }
            }

            // The source partition is emptied.
            assert forall|k: crate::types::SubstateKey|
                #[trigger] self.spec_get(SubstateId { node_id: src, partition: src_p, key: k })
                    is None by {
                let sid = SubstateId { node_id: src, partition: src_p, key: k };
                if sub_contains(kept, sid) {
                    let p = sub_index_of(kept, sid);
                    assert(kept[p].0 == sid);
                }
            }

            // Every source substate reappears under the destination.
            assert forall|k: crate::types::SubstateKey|
                #[trigger] self.spec_get(SubstateId { node_id: dst, partition: dst_p, key: k })
                    == old(self).spec_get(
                    SubstateId { node_id: src, partition: src_p, key: k },
                ) by {
                let sid_src = SubstateId { node_id: src, partition: src_p, key: k };
                let sid_dst = SubstateId { node_id: dst, partition: dst_p, key: k };
                let osi = old(self).spec_node_index(src);
                assert(osi == si as int) by {
                    old(self).lemma_node_index(si as int);
                }
                assert(se0 == old(self).nodes@[osi].substates@);
                if sub_contains(se0, sid_src) {
                    let p = sub_index_of(se0, sid_src);
                    assert(se0[p].0 == sid_src);
                    assert(mv(se0[p]));
                    assert(fmv.contains(se0[p]));
                    let q = choose|q: int| 0 <= q < fmv.len() && fmv[q] == se0[p];
                    assert(movedseq[q] == rk(se0[p]));
                    assert(d1[d0.len() + q] == (sid_dst, se0[p].1));
                    lemma_sub_index(d1, d0.len() + q);
                    lemma_sub_index(se0, p);
                } else {
                    assert(!sub_contains(d1, sid_dst)) by {
                        if sub_contains(d1, sid_dst) {
                            let m = sub_index_of(d1, sid_dst);
                            assert(d1[m].0 == sid_dst);
                            if m < d0.len() {
                                assert(d0[m].0.partition != dst_p);
                            } else {
                                assert(d1[m] == rk(fmv[m - d0.len()]));
                                assert(fmv[m - d0.len()].0.key == k);
                                lemma_filter_subset_entries(se0, mv, m - d0.len());
                                let m2 = choose|m2: int|
                                    0 <= m2 < se0.len() && se0[m2] == fmv[m - d0.len()];
                                assert(se0[m2].0 == sid_src);
                            }
                        }
                    }
                }
            }

            // Substates of unrelated nodes, and of other partitions of
            // the two touched nodes, are untouched.
            assert forall|id: SubstateId|
                id.node_id != src && id.node_id != dst implies #[trigger] self.spec_get(id)
                    == old(self).spec_get(id) by {
                if old(self).spec_has_node(id.node_id) {
                    let q = old(self).spec_node_index(id.node_id);
                    assert(old(self).nodes@[q].id == id.node_id);
                    assert(q != si as int && q != di as int);
                    assert(self.nodes@[q].id == id.node_id);
                    assert(self.nodes@[q].substates@ == old(self).nodes@[q].substates@);
                    self.lemma_node_index(q);
                    old(self).lemma_node_index(q);
                }
            }
            assert forall|id: SubstateId|
                id.node_id == src && id.partition != src_p implies #[trigger] self.spec_get(id)
                    == old(self).spec_get(id) by {
                let osi = old(self).spec_node_index(src);
                assert(osi == si as int) by {
                    old(self).lemma_node_index(si as int);
                }
                if sub_contains(se0, id) {
                    let p = sub_index_of(se0, id);
                    assert(se0[p].0 == id);
                    assert(keep(se0[p]));
                    assert(kept.contains(se0[p]));
                    let q = choose|q: int| 0 <= q < kept.len() && kept[q] == se0[p];
                    lemma_sub_index(kept, q);
                    lemma_sub_index(se0, p);
                } else {
                    assert(!sub_contains(kept, id)) by {
                        if sub_contains(kept, id) {
                            let m = sub_index_of(kept, id);
                            assert(kept[m].0 == id);
                            lemma_filter_subset_entries(se0, keep, m);
                            let m2 = choose|m2: int| 0 <= m2 < se0.len() && se0[m2] == kept[m];
                            assert(se0[m2].0 == id);
                        }
                    }
                }
            }
            assert forall|id: SubstateId|
                id.node_id == dst && id.partition != dst_p implies #[trigger] self.spec_get(id)
                    == old(self).spec_get(id) by {
                let odi2 = old(self).spec_node_index(dst);
                assert(odi2 == di as int);
                if sub_contains(d0, id) {
                    let p = sub_index_of(d0, id);
                    assert(d0[p].0 == id);
                    assert(d1[p].0 == id);
                    lemma_sub_index(d1, p);
                    lemma_sub_index(d0, p);
                } else {
                    assert(!sub_contains(d1, id)) by {
                        if sub_contains(d1, id) {
                            let m = sub_index_of(d1, id);
                            assert(d1[m].0 == id);
                            if m >= d0.len() {
                                assert(d1[m] == rk(fmv[m - d0.len()]));
                            }
                        }
                    }
                }
            }
        }
    }

    /// In a well-formed heap, an inner entry is reachable through
    /// `spec_get`.
    pub proof fn lemma_index_entry(self, i: int, p: int)
        requires
            self.wf(),
            0 <= i < self.nodes@.len(),
            0 <= p < self.nodes@[i].substates@.len(),
        ensures
            self.spec_get(self.nodes@[i].substates@[p].0) == Some(
                self.nodes@[i].substates@[p].1,
            ),
    {
        self.lemma_node_index(i);
        assert(self.nodes@[i].substates@[p].0.node_id == self.nodes@[i].id);
        lemma_sub_index(self.nodes@[i].substates@, p);
    }
}

} // verus!
