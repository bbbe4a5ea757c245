//! Change detection: per-type records of what happened to each entity
//! within one generation.
//!
//! For every tracked type key the engine keeps a sparse set from entity id
//! to a status — Added, Modified, or Removed — plus a side table of the
//! previous values those statuses reference.  The stored previous value is
//! always the *earliest* one captured this generation, so a consumer sees
//! the true before/after pair rather than an intermediate state.  A record
//! set lives until it is consumed; consumption swaps in an empty set, which
//! begins the next generation.

use vstd::prelude::*;

verus! {

use vstd::pervasive::VecAdditionalExecFns;
use crate::entities::EntityId;
use crate::sparse_set::SparseSet;

/// A per-entity status, carrying the dense index of the referenced previous
/// value in the record's side table.
#[derive(Clone, Copy, PartialEq, Eq, Structural)]
pub enum ChangeStatus {
    /// The component appeared this generation.
    Added,
    /// The component was replaced; the side table holds the earliest
    /// previous value.
    Modified(usize),
    /// The component left storage; the side table holds the value that was
    /// removed (or the earliest previous value, when it had been modified
    /// first).
    Removed(usize),
}

/// What a consumer learns about one entity, previous values included.
pub enum ChangeKind<C> {
    /// The component appeared this generation.
    Added,
    /// The component was replaced; the earliest previous value.
    Modified(C),
    /// The component left storage; the value that left (or the earliest
    /// previous value, when modified first).
    Removed(C),
}

impl<C> EntitySnapshot<C> {
    /// The component's current value in the world, for snapshots whose
    /// entity still carries it: additions and modifications read the value
    /// now in storage, removals have none.
    pub fn get_new<'w>(&self, world: &'w crate::world::World<C>, key: usize) -> (r: Option<&'w C>)
        requires
            world.wf(),
        ensures
            self.spec_kind() is Removed ==> r is None,
            !(self.spec_kind() is Removed) ==> match r {
                Some(c) => world.has(self.spec_id(), key) && *c == world.comp(self.spec_id(), key),
                None => !world.has(self.spec_id(), key),
            },
    {
        match &self.kind {
            ChangeKind::Removed(_) => None,
            _ => world.get_component(self.id, key),
        }
    }
}

/// Records changes of one tracked component type for one generation.
pub struct ChangeRecord<C> {
    entities: SparseSet<ChangeStatus>,
    removed: Vec<C>,
}

impl<C> ChangeRecord<C> {
    /// Statuses reference valid side-table slots, and no two entities share
    /// a slot.
    pub closed spec fn wf(&self) -> bool {
        &&& self.entities.wf()
        &&& forall|i: int|
            0 <= i < self.entities@.len() ==> match (#[trigger] self.entities@[i]).1 {
                ChangeStatus::Added => true,
                ChangeStatus::Modified(x) => x < self.removed@.len(),
                ChangeStatus::Removed(x) => x < self.removed@.len(),
            }
        &&& forall|i: int, j: int|
            #![trigger self.entities@[i], self.entities@[j]]
            0 <= i < self.entities@.len() && 0 <= j < self.entities@.len() && i != j ==> match (
            self.entities@[i].1, self.entities@[j].1) {
                (ChangeStatus::Added, _) => true,
                (_, ChangeStatus::Added) => true,
                (ChangeStatus::Modified(x), ChangeStatus::Modified(y)) => x != y,
                (ChangeStatus::Modified(x), ChangeStatus::Removed(y)) => x != y,
                (ChangeStatus::Removed(x), ChangeStatus::Modified(y)) => x != y,
                (ChangeStatus::Removed(x), ChangeStatus::Removed(y)) => x != y,
            }
    }

    /// The recorded entities, in record order.
    pub closed spec fn order(&self) -> Seq<usize> {
        Seq::new(self.entities@.len(), |i: int| self.entities@[i].0)
    }

    /// What this record says about entity `e`.
    pub closed spec fn delta(&self, e: usize) -> Option<ChangeKind<C>> {
        if !self.entities.has_key(e) {
            None
        } else {
            match self.entities.spec_get(e) {
                ChangeStatus::Added => Some(ChangeKind::Added),
                ChangeStatus::Modified(x) => Some(ChangeKind::Modified(self.removed@[x as int])),
                ChangeStatus::Removed(x) => Some(ChangeKind::Removed(self.removed@[x as int])),
            }
        }
    }

    /// An empty record: the start of a generation.
    pub fn new() -> (r: Self)
        ensures
            r.wf(),
            r.order() == Seq::<usize>::empty(),
            forall|e: usize| #[trigger] r.delta(e) is None,
    {
        let r = ChangeRecord { entities: SparseSet::new(), removed: Vec::new() };
        proof {
            assert(r.order() =~= Seq::<usize>::empty());
        }
        r
    }

    /// A record that marks every given entity as freshly added, in order.
    pub fn from_ids(ids: &Vec<EntityId>) -> (r: Self)
        requires
            forall|i: int, j: int|
                0 <= i < ids@.len() && 0 <= j < ids@.len() && i != j ==> (#[trigger] ids@[i])@ != (
                #[trigger] ids@[j])@,
            forall|i: int| 0 <= i < ids@.len() ==> (#[trigger] ids@[i])@ < usize::MAX,
        ensures
            r.wf(),
            r.order().len() == ids@.len(),
            forall|i: int| 0 <= i < ids@.len() ==> r.order()[i] == (#[trigger] ids@[i])@,
            forall|e: usize| #[trigger]
                r.delta(e) == (if exists|i: int|
                    0 <= i < ids@.len() && (#[trigger] ids@[i])@ == e {
                    Some(ChangeKind::<C>::Added)
                } else {
                    None::<ChangeKind<C>>
                }),
    {
        let mut entities: SparseSet<ChangeStatus> = SparseSet::new();
        let mut i: usize = 0;
        while i < ids.len()
            invariant
                forall|a: int, b: int|
                    0 <= a < ids@.len() && 0 <= b < ids@.len() && a != b ==> (#[trigger] ids@[a])@
                        != (#[trigger] ids@[b])@,
                forall|a: int| 0 <= a < ids@.len() ==> (#[trigger] ids@[a])@ < usize::MAX,
                i <= ids@.len(),
                entities.wf(),
                entities@.len() == i,
                forall|t: int|
                    0 <= t < i ==> (#[trigger] entities@[t]) == ((ids@[t]@, ChangeStatus::Added)),
            decreases ids@.len() - i,
        {
            proof {
                if entities.has_key(ids@[i as int]@) {
                    let t = choose|t: int|
                        0 <= t < entities@.len() && (#[trigger] entities@[t]).0 == ids@[i as int]@;
                }
            }
            entities.insert(ids[i].id(), ChangeStatus::Added);
            i = i + 1;
        }
        let r = ChangeRecord { entities, removed: Vec::new() };
        proof {
            assert forall|e: usize| #[trigger]
                r.delta(e) == (if exists|t: int|
                    0 <= t < ids@.len() && (#[trigger] ids@[t])@ == e {
                    Some(ChangeKind::<C>::Added)
                } else {
                    None::<ChangeKind<C>>
                }) by {
                if r.entities.has_key(e) {
                    let t = choose|t: int|
                        0 <= t < r.entities@.len() && (#[trigger] r.entities@[t]).0 == e;
                    assert(ids@[t]@ == e);
                    r.entities.lemma_idx_of(e);
                    assert(r.entities.spec_get(e) == ChangeStatus::Added);
                }
                if exists|t: int| 0 <= t < ids@.len() && (#[trigger] ids@[t])@ == e {
                    let t = choose|t: int| 0 <= t < ids@.len() && (#[trigger] ids@[t])@ == e;
                    assert(r.entities@[t].0 == e);
                }
            }
        }
        r
    }

    /// Whether this record mentions `id`.
    pub fn contains(&self, id: EntityId) -> (r: bool)
        requires
            self.wf(),
        ensures
            r == !(self.delta(id@) is None),
    {
        self.entities.contains(id.id())
    }

    /// Marks the component as freshly added: a new entity gets `Added`, an
    /// entity whose component was removed earlier this generation collapses
    /// to `Modified` keeping the stored previous value.
    pub fn mark_added(&mut self, id: EntityId)
        requires
            old(self).wf(),
            id@ < usize::MAX,
            !(old(self).delta(id@) matches Some(ChangeKind::Added)),
            !(old(self).delta(id@) matches Some(ChangeKind::Modified(_))),
        ensures
            final(self).wf(),
            old(self).delta(id@) is None ==> final(self).delta(id@) == Some(
                ChangeKind::<C>::Added,
            ) && final(self).order() == old(self).order().push(id@),
            old(self).delta(id@) matches Some(ChangeKind::Removed(c)) ==> final(self).delta(id@)
                == Some(ChangeKind::<C>::Modified(c)) && final(self).order() == old(self).order(),
            forall|e: usize| e != id@ ==> #[trigger] final(self).delta(e) == old(self).delta(e),
    {
        let ghost prev = *self;
        let status_opt = match self.entities.get(id.id()) {
            Some(s) => Some(*s),
            None => None,
        };
        match status_opt {
            Some(ChangeStatus::Removed(x)) => {
                self.entities.insert(id.id(), ChangeStatus::Modified(x));
                proof {
                    prev.entities.lemma_idx_of(id@);
                    self.lemma_after_update(prev, id@);
                }
            },
            Some(_) => {
                proof {
                    assert(false);
                }
            },
            None => {
                self.entities.insert(id.id(), ChangeStatus::Added);
                proof {
                    self.lemma_after_push(prev, id@);
                }
            },
        }
    }

    /// Marks the component as removed, carrying `component` (the value that
    /// left storage) unless an earlier previous value is already stored: a
    /// same-generation `Added` collapses to no record at all.
    pub fn mark_removed(&mut self, id: EntityId, component: C)
        requires
            old(self).wf(),
            id@ < usize::MAX,
            !(old(self).delta(id@) matches Some(ChangeKind::Removed(_))),
        ensures
            final(self).wf(),
            old(self).delta(id@) is None ==> final(self).delta(id@) == Some(
                ChangeKind::Removed(component),
            ) && final(self).order() == old(self).order().push(id@),
            old(self).delta(id@) matches Some(ChangeKind::Added) ==> final(self).delta(id@)
                is None && final(self).order() == old(self).order().update(
                old(self).rec_idx(id@),
                old(self).order().last(),
            ).drop_last(),
            old(self).delta(id@) matches Some(ChangeKind::Modified(c)) ==> final(self).delta(id@)
                == Some(ChangeKind::Removed(c)) && final(self).order() == old(self).order(),
            forall|e: usize| e != id@ ==> #[trigger] final(self).delta(e) == old(self).delta(e),
    {
        let ghost prev = *self;
        let status_opt = match self.entities.get(id.id()) {
            Some(s) => Some(*s),
            None => None,
        };
        match status_opt {
            Some(ChangeStatus::Added) => {
                self.entities.remove(id.id());
                proof {
                    prev.entities.lemma_idx_of(id@);
                    self.lemma_after_collapse(prev, id@);
                }
            },
            Some(ChangeStatus::Modified(x)) => {
                self.entities.insert(id.id(), ChangeStatus::Removed(x));
                proof {
                    prev.entities.lemma_idx_of(id@);
                    self.lemma_after_update(prev, id@);
                }
            },
            Some(ChangeStatus::Removed(_)) => {
                proof {
                    assert(false);
                }
            },
            None => {
                let x = self.removed.len();
                self.removed.push(component);
                self.entities.insert(id.id(), ChangeStatus::Removed(x));
                proof {
                    self.lemma_after_push(prev, id@);
                }
            },
        }
    }

    /// Marks the component as replaced, storing `component` (the value being
    /// overwritten) only when no previous value is stored yet: the earliest
    /// previous value of the generation always wins.
    pub fn mark_changed(&mut self, id: EntityId, component: C)
        requires
            old(self).wf(),
            id@ < usize::MAX,
            !(old(self).delta(id@) matches Some(ChangeKind::Removed(_))),
        ensures
            final(self).wf(),
            old(self).delta(id@) is None ==> final(self).delta(id@) == Some(
                ChangeKind::Modified(component),
            ) && final(self).order() == old(self).order().push(id@),
            !(old(self).delta(id@) is None) ==> final(self).delta(id@) == old(self).delta(id@)
                && final(self).order() == old(self).order(),
            forall|e: usize| e != id@ ==> #[trigger] final(self).delta(e) == old(self).delta(e),
    {
        let ghost prev = *self;
        let present = self.entities.contains(id.id());
        if !present {
            let x = self.removed.len();
            self.removed.push(component);
            self.entities.insert(id.id(), ChangeStatus::Modified(x));
            proof {
                self.lemma_after_push(prev, id@);
            }
        }
    }

    /// The record slot of `id` (meaningful only when the record mentions it).
    pub closed spec fn rec_idx(&self, e: usize) -> int {
        self.entities.idx_of(e)
    }

    /// A status payload for `id` is acceptable when it reuses `id`'s old
    /// slot or points at a freshly pushed slot.
    spec fn payload_ok(prev: Self, id: usize, x: usize, new_len: int) -> bool {
        &&& x < new_len
        &&& ((prev.entities.has_key(id) && match prev.entities.spec_get(id) {
            ChangeStatus::Added => false,
            ChangeStatus::Modified(y) => x == y,
            ChangeStatus::Removed(y) => x == y,
        }) || x >= prev.removed@.len())
    }

    /// The side table only ever grows, one value at a time.
    spec fn removed_grown(prev: Self, cur: Self) -> bool {
        &&& prev.removed@.len() <= cur.removed@.len() <= prev.removed@.len() + 1
        &&& forall|x: int| 0 <= x < prev.removed@.len() ==> cur.removed@[x] == prev.removed@[x]
    }

    /// An in-place status change at `id`'s slot restores well-formedness
    /// and keeps every other delta and the record order.
    proof fn lemma_after_update(&self, prev: Self, id: usize)
        requires
            prev.wf(),
            prev.entities.has_key(id),
            self.entities.wf(),
            self.entities@ == prev.entities@.update(
                prev.entities.idx_of(id),
                (id, self.entities@[prev.entities.idx_of(id)].1),
            ),
            Self::removed_grown(prev, *self),
            match self.entities@[prev.entities.idx_of(id)].1 {
                ChangeStatus::Added => true,
                ChangeStatus::Modified(x) => Self::payload_ok(prev, id, x, self.removed@.len() as int),
                ChangeStatus::Removed(x) => Self::payload_ok(prev, id, x, self.removed@.len() as int),
            },
        ensures
            self.wf(),
            forall|e: usize| e != id ==> #[trigger] self.delta(e) == prev.delta(e),
            self.order() == prev.order(),
    {
        prev.entities.lemma_idx_of(id);
        let at = prev.entities.idx_of(id);
        assert forall|i: int| 0 <= i < self.entities@.len() implies match (
        #[trigger] self.entities@[i]).1 {
            ChangeStatus::Added => true,
            ChangeStatus::Modified(x) => x < self.removed@.len(),
            ChangeStatus::Removed(x) => x < self.removed@.len(),
        } by {
            if i != at {
                assert(self.entities@[i] == prev.entities@[i]);
            }
        }
        assert forall|i: int, j: int|
            #![trigger self.entities@[i], self.entities@[j]]
            0 <= i < self.entities@.len() && 0 <= j < self.entities@.len() && i != j implies match (
        self.entities@[i].1, self.entities@[j].1) {
            (ChangeStatus::Added, _) => true,
            (_, ChangeStatus::Added) => true,
            (ChangeStatus::Modified(x), ChangeStatus::Modified(y)) => x != y,
            (ChangeStatus::Modified(x), ChangeStatus::Removed(y)) => x != y,
            (ChangeStatus::Removed(x), ChangeStatus::Modified(y)) => x != y,
            (ChangeStatus::Removed(x), ChangeStatus::Removed(y)) => x != y,
        } by {
            if i != at && j != at {
                assert(self.entities@[i] == prev.entities@[i]);
                assert(self.entities@[j] == prev.entities@[j]);
            } else {
                let o = if i == at {
                    j
                } else {
                    i
                };
                assert(self.entities@[o] == prev.entities@[o]);
            }
        }
        assert(self.wf());
        assert(self.order() =~= prev.order());
        assert forall|e: usize| e != id implies #[trigger] self.delta(e) == prev.delta(e) by {
            if prev.entities.has_key(e) {
                prev.entities.lemma_idx_of(e);
                let i = prev.entities.idx_of(e);
                assert(i != at);
                assert(self.entities@[i] == prev.entities@[i]);
                self.entities.lemma_idx_of(e);
                assert(self.entities.idx_of(e) == i);
            } else {
                if self.entities.has_key(e) {
                    let i = choose|i: int|
                        0 <= i < self.entities@.len() && (#[trigger] self.entities@[i]).0 == e;
                    assert(i != at);
                    assert(prev.entities@[i].0 == e);
                }
            }
        }
    }

    /// Appending a record for a previously unrecorded `id` restores
    /// well-formedness and keeps every other delta; the order grows by `id`.
    proof fn lemma_after_push(&self, prev: Self, id: usize)
        requires
            prev.wf(),
            !prev.entities.has_key(id),
            self.entities.wf(),
            self.entities@ == prev.entities@.push(
                (id, self.entities@[prev.entities@.len() as int].1),
            ),
            Self::removed_grown(prev, *self),
            match self.entities@[prev.entities@.len() as int].1 {
                ChangeStatus::Added => true,
                ChangeStatus::Modified(x) => x < self.removed@.len() && x >= prev.removed@.len(),
                ChangeStatus::Removed(x) => x < self.removed@.len() && x >= prev.removed@.len(),
            },
        ensures
            self.wf(),
            forall|e: usize| e != id ==> #[trigger] self.delta(e) == prev.delta(e),
            self.order() == prev.order().push(id),
    {
        let at = prev.entities@.len() as int;
        assert forall|i: int| 0 <= i < self.entities@.len() implies match (
        #[trigger] self.entities@[i]).1 {
            ChangeStatus::Added => true,
            ChangeStatus::Modified(x) => x < self.removed@.len(),
            ChangeStatus::Removed(x) => x < self.removed@.len(),
        } by {
            if i != at {
                assert(self.entities@[i] == prev.entities@[i]);
            }
        }
        assert forall|i: int, j: int|
            #![trigger self.entities@[i], self.entities@[j]]
            0 <= i < self.entities@.len() && 0 <= j < self.entities@.len() && i != j implies match (
        self.entities@[i].1, self.entities@[j].1) {
            (ChangeStatus::Added, _) => true,
            (_, ChangeStatus::Added) => true,
            (ChangeStatus::Modified(x), ChangeStatus::Modified(y)) => x != y,
            (ChangeStatus::Modified(x), ChangeStatus::Removed(y)) => x != y,
            (ChangeStatus::Removed(x), ChangeStatus::Modified(y)) => x != y,
            (ChangeStatus::Removed(x), ChangeStatus::Removed(y)) => x != y,
        } by {
            if i != at && j != at {
                assert(self.entities@[i] == prev.entities@[i]);
                assert(self.entities@[j] == prev.entities@[j]);
            } else {
                let o = if i == at {
                    j
                } else {
                    i
                };
                assert(self.entities@[o] == prev.entities@[o]);
            }
        }
        assert(self.wf());
        assert(self.order() =~= prev.order().push(id));
        assert forall|e: usize| e != id implies #[trigger] self.delta(e) == prev.delta(e) by {
            if prev.entities.has_key(e) {
                prev.entities.lemma_idx_of(e);
                let i = prev.entities.idx_of(e);
                assert(self.entities@[i] == prev.entities@[i]);
                self.entities.lemma_idx_of(e);
                assert(self.entities.idx_of(e) == i);
            } else {
                if self.entities.has_key(e) {
                    let i = choose|i: int|
                        0 <= i < self.entities@.len() && (#[trigger] self.entities@[i]).0 == e;
                    assert(i != at);
                    assert(prev.entities@[i].0 == e);
                }
            }
        }
    }

    /// Swap-removing `id`'s record (a same-generation add/remove collapse)
    /// restores well-formedness and keeps every other delta.
    proof fn lemma_after_collapse(&self, prev: Self, id: usize)
        requires
            prev.wf(),
            prev.entities.has_key(id),
            self.entities.wf(),
            self.entities@ == prev.entities@.update(
                prev.entities.idx_of(id),
                prev.entities@.last(),
            ).drop_last(),
            self.removed@ == prev.removed@,
        ensures
            self.wf(),
            forall|e: usize| e != id ==> #[trigger] self.delta(e) == prev.delta(e),
            self.order() == prev.order().update(
                prev.rec_idx(id),
                prev.order().last(),
            ).drop_last(),
    {
        prev.entities.lemma_idx_of(id);
        let at = prev.entities.idx_of(id);
        let last = prev.entities@.len() - 1;
        assert forall|i: int| 0 <= i < self.entities@.len() implies match (
        #[trigger] self.entities@[i]).1 {
            ChangeStatus::Added => true,
            ChangeStatus::Modified(x) => x < self.removed@.len(),
            ChangeStatus::Removed(x) => x < self.removed@.len(),
        } by {
            if i == at {
                assert(self.entities@[i] == prev.entities@[last]);
            } else {
                assert(self.entities@[i] == prev.entities@[i]);
            }
        }
        assert forall|i: int, j: int|
            #![trigger self.entities@[i], self.entities@[j]]
            0 <= i < self.entities@.len() && 0 <= j < self.entities@.len() && i != j implies match (
        self.entities@[i].1, self.entities@[j].1) {
            (ChangeStatus::Added, _) => true,
            (_, ChangeStatus::Added) => true,
            (ChangeStatus::Modified(x), ChangeStatus::Modified(y)) => x != y,
            (ChangeStatus::Modified(x), ChangeStatus::Removed(y)) => x != y,
            (ChangeStatus::Removed(x), ChangeStatus::Modified(y)) => x != y,
            (ChangeStatus::Removed(x), ChangeStatus::Removed(y)) => x != y,
        } by {
            let pi = if i == at {
                last
            } else {
                i
            };
            let pj = if j == at {
                last
            } else {
                j
            };
            assert(self.entities@[i] == prev.entities@[pi]);
            assert(self.entities@[j] == prev.entities@[pj]);
            assert(pi != pj);
        }
        assert(self.wf());
        assert(self.order() =~= prev.order().update(
            prev.rec_idx(id),
            prev.order().last(),
        ).drop_last());
        assert forall|e: usize| e != id implies #[trigger] self.delta(e) == prev.delta(e) by {
            if self.entities.has_key(e) {
                self.entities.lemma_idx_of(e);
                let i = self.entities.idx_of(e);
                if i == at && at < last {
                    assert(self.entities@[i] == prev.entities@[last]);
                    prev.entities.lemma_idx_of(e);
                    assert(prev.entities.idx_of(e) == last);
                } else {
                    assert(self.entities@[i] == prev.entities@[i]);
                    prev.entities.lemma_idx_of(e);
                    assert(prev.entities.idx_of(e) == i);
                }
            } else {
                if prev.entities.has_key(e) {
                    prev.entities.lemma_idx_of(e);
                    let i = prev.entities.idx_of(e);
                    assert(i != at);
                    if i == last {
                        assert(at < last);
                        assert(self.entities@[at].0 == e);
                    } else {
                        assert(self.entities@[i].0 == e);
                    }
                }
            }
        }
    }
}


/// The change-detection subsystem: one record set per tracked type key.
pub struct ChangeDetection<C> {
    records: SparseSet<ChangeRecord<C>>,
}

impl<C> ChangeDetection<C> {
    /// Whether changes of type key `k` are being recorded.
    pub closed spec fn is_tracked(&self, k: usize) -> bool {
        self.records.has_key(k)
    }

    /// The current record set of tracked type key `k`.
    pub closed spec fn rec(&self, k: usize) -> ChangeRecord<C> {
        self.records.spec_get(k)
    }

    /// What the current generation records for `e` under type key `k`.
    pub open spec fn delta(&self, k: usize, e: usize) -> Option<ChangeKind<C>> {
        if self.is_tracked(k) {
            self.rec(k).delta(e)
        } else {
            None
        }
    }

    /// Whether any tracked record mentions `e`.
    pub closed spec fn references(&self, e: usize) -> bool {
        exists|i: int|
            0 <= i < self.records@.len() && !((#[trigger] self.records@[i]).1.delta(e) is None)
    }

    pub closed spec fn wf(&self) -> bool {
        &&& self.records.wf()
        &&& forall|i: int| 0 <= i < self.records@.len() ==> (#[trigger] self.records@[i]).1.wf()
    }

    pub fn new() -> (r: Self)
        ensures
            r.wf(),
            forall|k: usize| !(#[trigger] r.is_tracked(k)),
            forall|e: usize| !(#[trigger] r.references(e)),
    {
        ChangeDetection { records: SparseSet::new() }
    }

    /// Takes the current record set of `key`, leaving a fresh empty one:
    /// the consumed generation ends, the next begins.  Consuming an
    /// untracked key begins tracking it and yields nothing.
    pub fn consume_record(&mut self, key: usize) -> (r: Option<ChangeRecord<C>>)
        requires
            old(self).wf(),
            key < usize::MAX,
        ensures
            final(self).wf(),
            final(self).is_tracked(key),
            forall|e: usize| #[trigger] final(self).delta(key, e) is None,
            forall|k2: usize|
                k2 != key ==> (#[trigger] final(self).is_tracked(k2) <==> old(self).is_tracked(k2)),
            forall|k2: usize|
                k2 != key && old(self).is_tracked(k2) ==> #[trigger] final(self).rec(k2) == old(
                    self,
                ).rec(k2),
            old(self).is_tracked(key) ==> r == Some(old(self).rec(key)),
            !old(self).is_tracked(key) ==> r is None,
            forall|e: usize| #[trigger]
                final(self).references(e) ==> old(self).references(e),
    {
        let ghost prev = *self;
        let fresh = ChangeRecord::new();
        let r = if self.records.contains(key) {
            let taken = self.records.replace(key, fresh);
            Some(taken)
        } else {
            self.records.insert(key, fresh);
            None
        };
        proof {
            assert forall|i: int| 0 <= i < self.records@.len() implies (
            #[trigger] self.records@[i]).1.wf() by {
                self.lemma_entry_source(prev, key, i);
            }
            self.records.lemma_idx_of(key);
            assert(self.rec(key).delta(0usize) is None);
            assert forall|k2: usize| k2 != key && prev.is_tracked(k2) implies #[trigger] self.rec(
                k2,
            ) == prev.rec(k2) by {
                prev.records.lemma_idx_of(k2);
                let i = prev.records.idx_of(k2);
                assert(self.records@[i] == prev.records@[i]);
                self.records.lemma_idx_of(k2);
            }
            assert forall|e: usize| #[trigger]
                self.references(e) implies prev.references(e) by {
                let i = choose|i: int|
                    0 <= i < self.records@.len() && !((#[trigger] self.records@[i]).1.delta(e)
                        is None);
                self.lemma_entry_source(prev, key, i);
                assert(self.records@[i].0 != key || self.records@[i].1.delta(e) is None);
                let k2 = self.records@[i].0;
                assert(prev.is_tracked(k2) && prev.rec(k2) == self.records@[i].1);
                prev.records.lemma_idx_of(k2);
                let i0 = prev.records.idx_of(k2);
                assert(!(prev.records@[i0].1.delta(e) is None));
            }
        }
        r
    }

    /// Each entry of the edited table either copies an old entry or carries
    /// the given key with a well-formed record.
    proof fn lemma_entry_source(&self, prev: Self, key: usize, i: int)
        requires
            prev.wf(),
            self.records.wf(),
            0 <= i < self.records@.len(),
            (prev.records.has_key(key) && self.records@ == prev.records@.update(
                prev.records.idx_of(key),
                (key, self.records@[prev.records.idx_of(key)].1),
            ) && self.records@[prev.records.idx_of(key)].1.wf()) || (!prev.records.has_key(key)
                && self.records@ == prev.records@.push(
                (key, self.records@[prev.records@.len() as int].1),
            ) && self.records@[prev.records@.len() as int].1.wf()),
        ensures
            self.records@[i].1.wf(),
            self.records@[i].0 == key || (prev.records.has_key(self.records@[i].0)
                && prev.rec(self.records@[i].0) == self.records@[i].1),
    {
        if prev.records.has_key(key) {
            prev.records.lemma_idx_of(key);
            let at = prev.records.idx_of(key);
            if i != at {
                assert(self.records@[i] == prev.records@[i]);
                prev.records.lemma_idx_of(prev.records@[i].0);
            }
        } else {
            if i < prev.records@.len() {
                assert(self.records@[i] == prev.records@[i]);
                prev.records.lemma_idx_of(prev.records@[i].0);
            }
        }
    }

    /// Applies one record edit to the tracked key, if tracked.
    /// Marks the component as added for `id`.
    pub fn mark_added(&mut self, id: EntityId, key: usize)
        requires
            old(self).wf(),
            id@ < usize::MAX,
            !(old(self).delta(key, id@) matches Some(ChangeKind::Added)),
            !(old(self).delta(key, id@) matches Some(ChangeKind::Modified(_))),
        ensures
            final(self).wf(),
            forall|k2: usize| #[trigger] final(self).is_tracked(k2) <==> old(self).is_tracked(k2),
            forall|k2: usize|
                k2 != key && old(self).is_tracked(k2) ==> #[trigger] final(self).rec(k2) == old(
                    self,
                ).rec(k2),
            !old(self).is_tracked(key) ==> forall|e: usize| #[trigger]
                final(self).delta(key, e) == old(self).delta(key, e),
            old(self).is_tracked(key) ==> {
                &&& (old(self).delta(key, id@) is None ==> final(self).delta(key, id@) == Some(
                    ChangeKind::<C>::Added,
                ) && final(self).rec(key).order() == old(self).rec(key).order().push(id@))
                &&& (old(self).delta(key, id@) matches Some(ChangeKind::Removed(c))
                    ==> final(self).delta(key, id@) == Some(ChangeKind::<C>::Modified(c))
                    && final(self).rec(key).order() == old(self).rec(key).order())
                &&& forall|e: usize|
                    e != id@ ==> #[trigger] final(self).delta(key, e) == old(self).delta(key, e)
            },
    {
        let ghost prev = *self;
        if self.records.contains(key) {
            let mut taken = self.records.replace(key, ChangeRecord::new());
            let ghost mid = self.records;
            taken.mark_added(id);
            let _placeholder = self.records.replace(key, taken);
            proof {
                prev.records.lemma_idx_of(key);
                mid.lemma_idx_of(key);
                assert(mid.idx_of(key) == prev.records.idx_of(key));
                assert(self.records@ =~= prev.records@.update(
                    prev.records.idx_of(key),
                    (key, self.records@[prev.records.idx_of(key)].1),
                ));
                self.lemma_edit_post(prev, key);
            }
        }
    }

    /// Marks the component as removed for `id`, carrying the value that
    /// left storage.
    pub fn mark_removed(&mut self, id: EntityId, key: usize, component: C)
        requires
            old(self).wf(),
            id@ < usize::MAX,
            !(old(self).delta(key, id@) matches Some(ChangeKind::Removed(_))),
        ensures
            final(self).wf(),
            forall|k2: usize| #[trigger] final(self).is_tracked(k2) <==> old(self).is_tracked(k2),
            forall|k2: usize|
                k2 != key && old(self).is_tracked(k2) ==> #[trigger] final(self).rec(k2) == old(
                    self,
                ).rec(k2),
            !old(self).is_tracked(key) ==> forall|e: usize| #[trigger]
                final(self).delta(key, e) == old(self).delta(key, e),
            old(self).is_tracked(key) ==> {
                &&& (old(self).delta(key, id@) is None ==> final(self).delta(key, id@) == Some(
                    ChangeKind::Removed(component),
                ))
                &&& (old(self).delta(key, id@) matches Some(ChangeKind::Added)
                    ==> final(self).delta(key, id@) is None)
                &&& (old(self).delta(key, id@) matches Some(ChangeKind::Modified(c))
                    ==> final(self).delta(key, id@) == Some(ChangeKind::Removed(c)))
                &&& forall|e: usize|
                    e != id@ ==> #[trigger] final(self).delta(key, e) == old(self).delta(key, e)
            },
    {
        let ghost prev = *self;
        if self.records.contains(key) {
            let mut taken = self.records.replace(key, ChangeRecord::new());
            let ghost mid = self.records;
            taken.mark_removed(id, component);
            let _placeholder = self.records.replace(key, taken);
            proof {
                prev.records.lemma_idx_of(key);
                mid.lemma_idx_of(key);
                assert(mid.idx_of(key) == prev.records.idx_of(key));
                assert(self.records@ =~= prev.records@.update(
                    prev.records.idx_of(key),
                    (key, self.records@[prev.records.idx_of(key)].1),
                ));
                self.lemma_edit_post(prev, key);
            }
        }
    }

    /// Marks the component as replaced for `id`, storing the overwritten
    /// value only when it is the generation's earliest.
    pub fn mark_changed(&mut self, id: EntityId, key: usize, component: C)
        requires
            old(self).wf(),
            id@ < usize::MAX,
            !(old(self).delta(key, id@) matches Some(ChangeKind::Removed(_))),
        ensures
            final(self).wf(),
            forall|k2: usize| #[trigger] final(self).is_tracked(k2) <==> old(self).is_tracked(k2),
            forall|k2: usize|
                k2 != key && old(self).is_tracked(k2) ==> #[trigger] final(self).rec(k2) == old(
                    self,
                ).rec(k2),
            !old(self).is_tracked(key) ==> forall|e: usize| #[trigger]
                final(self).delta(key, e) == old(self).delta(key, e),
            old(self).is_tracked(key) ==> {
                &&& (old(self).delta(key, id@) is None ==> final(self).delta(key, id@) == Some(
                    ChangeKind::Modified(component),
                ))
                &&& (!(old(self).delta(key, id@) is None)
                    ==> final(self).delta(key, id@) == old(self).delta(key, id@))
                &&& forall|e: usize|
                    e != id@ ==> #[trigger] final(self).delta(key, e) == old(self).delta(key, e)
            },
    {
        let ghost prev = *self;
        if self.records.contains(key) {
            let mut taken = self.records.replace(key, ChangeRecord::new());
            let ghost mid = self.records;
            taken.mark_changed(id, component);
            let _placeholder = self.records.replace(key, taken);
            proof {
                prev.records.lemma_idx_of(key);
                mid.lemma_idx_of(key);
                assert(mid.idx_of(key) == prev.records.idx_of(key));
                assert(self.records@ =~= prev.records@.update(
                    prev.records.idx_of(key),
                    (key, self.records@[prev.records.idx_of(key)].1),
                ));
                self.lemma_edit_post(prev, key);
            }
        }
    }

    /// After swapping one tracked record out, editing it, and swapping it
    /// back in place, the table is well formed and all other keys read the
    /// same records.
    proof fn lemma_edit_post(&self, prev: Self, key: usize)
        requires
            prev.wf(),
            prev.records.has_key(key),
            self.records.wf(),
            self.records@ == prev.records@.update(
                prev.records.idx_of(key),
                (key, self.records@[prev.records.idx_of(key)].1),
            ),
            self.records@[prev.records.idx_of(key)].1.wf(),
        ensures
            self.wf(),
            forall|k2: usize| #[trigger] self.is_tracked(k2) <==> prev.is_tracked(k2),
            forall|k2: usize|
                k2 != key && prev.is_tracked(k2) ==> #[trigger] self.rec(k2) == prev.rec(k2),
            self.is_tracked(key),
            self.rec(key) == self.records@[prev.records.idx_of(key)].1,
    {
        prev.records.lemma_idx_of(key);
        let at = prev.records.idx_of(key);
        assert forall|i: int| 0 <= i < self.records@.len() implies (
        #[trigger] self.records@[i]).1.wf() by {
            if i != at {
                assert(self.records@[i] == prev.records@[i]);
            }
        }
        assert(self.records@[at].0 == key);
        self.records.lemma_idx_of(key);
        assert(self.records.idx_of(key) == at);
        assert forall|k2: usize| #[trigger] self.is_tracked(k2) <==> prev.is_tracked(k2) by {
            if self.records.has_key(k2) {
                let i = choose|i: int|
                    0 <= i < self.records@.len() && (#[trigger] self.records@[i]).0 == k2;
                if i != at {
                    assert(prev.records@[i].0 == k2);
                }
            }
            if prev.records.has_key(k2) {
                prev.records.lemma_idx_of(k2);
                let i = prev.records.idx_of(k2);
                if i != at {
                    assert(self.records@[i].0 == k2);
                }
            }
        }
        assert forall|k2: usize| k2 != key && prev.is_tracked(k2) implies #[trigger] self.rec(k2)
            == prev.rec(k2) by {
            prev.records.lemma_idx_of(k2);
            let i = prev.records.idx_of(k2);
            assert(i != at);
            assert(self.records@[i] == prev.records@[i]);
            self.records.lemma_idx_of(k2);
            assert(self.records.idx_of(k2) == i);
        }
    }

    /// A tracked key's record set is well formed.
    pub proof fn lemma_rec_wf(&self, k: usize)
        requires
            self.wf(),
            self.is_tracked(k),
        ensures
            self.rec(k).wf(),
    {
        self.records.lemma_idx_of(k);
    }

    /// A recorded delta under any tracked key makes the entity referenced.
    pub proof fn lemma_delta_references(&self, k: usize, e: usize)
        requires
            self.wf(),
            self.is_tracked(k),
            !(self.rec(k).delta(e) is None),
        ensures
            self.references(e),
    {
        self.records.lemma_idx_of(k);
        let i = self.records.idx_of(k);
        assert(!(self.records@[i].1.delta(e) is None));
    }

    /// Picks a tracked key whose record mentions `e`.
    pub proof fn lemma_references_witness(&self, e: usize) -> (k: usize)
        requires
            self.wf(),
            self.references(e),
        ensures
            self.is_tracked(k),
            !(self.delta(k, e) is None),
    {
        let i = choose|i: int|
            0 <= i < self.records@.len() && !((#[trigger] self.records@[i]).1.delta(e) is None);
        let k = self.records@[i].0;
        self.records.lemma_idx_of(k);
        assert(self.records.idx_of(k) == i);
        k
    }

    /// A non-empty delta under a tracked key makes the entity referenced.
    pub proof fn lemma_delta_some_references(&self, k: usize, e: usize)
        requires
            self.wf(),
            !(self.delta(k, e) is None),
        ensures
            self.references(e),
    {
        self.lemma_delta_references(k, e);
    }

    /// Whether any tracked record still mentions `id`: such an entity's id
    /// must not be recycled yet.
    pub fn contains(&self, id: EntityId) -> (r: bool)
        requires
            self.wf(),
        ensures
            r == self.references(id@),
    {
        let dense = self.records.iter();
        let mut i: usize = 0;
        while i < dense.len()
            invariant
                self.wf(),
                dense@ == self.records@,
                i <= dense@.len(),
                forall|t: int| 0 <= t < i ==> (#[trigger] dense@[t]).1.delta(id@) is None,
            decreases dense@.len() - i,
        {
            if dense[i].1.contains(id) {
                return true;
            }
            i = i + 1;
        }
        false
    }
}


/// One consumed change: the entity and what happened to it, with the
/// earliest previous value where one exists.
pub struct EntitySnapshot<C> {
    id: EntityId,
    kind: ChangeKind<C>,
}

impl<C> EntitySnapshot<C> {
    /// The entity the snapshot is about.
    pub closed spec fn spec_id(&self) -> usize {
        self.id@
    }

    /// What happened to it.
    pub closed spec fn spec_kind(&self) -> ChangeKind<C> {
        self.kind
    }

    pub(crate) fn new(id: EntityId, kind: ChangeKind<C>) -> (r: Self)
        ensures
            r.spec_id() == id@,
            r.spec_kind() == kind,
    {
        EntitySnapshot { id, kind }
    }

    pub fn id(&self) -> (r: EntityId)
        ensures
            r@ == self.spec_id(),
    {
        self.id
    }

    /// The previous value this generation recorded, if any: the earliest
    /// overwritten value for a modification, the departing value for a
    /// removal, nothing for an addition.
    pub fn get_old(&self) -> (r: Option<&C>)
        ensures
            match r {
                Some(c) => (self.spec_kind() matches ChangeKind::Modified(x) && *c == x) || (
                self.spec_kind() matches ChangeKind::Removed(x) && *c == x),
                None => self.spec_kind() is Added,
            },
    {
        match &self.kind {
            ChangeKind::Added => None,
            ChangeKind::Modified(c) => Some(c),
            ChangeKind::Removed(c) => Some(c),
        }
    }
}

impl<C> ChangeRecord<C> {
    /// Surrenders the record as an ordered list of snapshots, moving each
    /// stored previous value into the snapshot that references it.
    pub fn into_snapshots(self) -> (r: Vec<EntitySnapshot<C>>)
        requires
            self.wf(),
        ensures
            r@.len() == self.order().len(),
            forall|i: int|
                0 <= i < r@.len() ==> (#[trigger] r@[i]).spec_id() == self.order()[i] && Some(
                    r@[i].spec_kind(),
                ) == self.delta(self.order()[i]),
    {
        let ghost me = self;
        let ChangeRecord { entities, removed } = self;
        let ghost removed0 = removed@;
        let mut opts: Vec<Option<C>> = Vec::new();
        let mut rem = removed;
        while rem.len() > 0
            invariant
                opts@.len() + rem@.len() == removed0.len(),
                forall|x: int| 0 <= x < opts@.len() ==> opts@[x] == Some(removed0[x]),
                forall|x: int|
                    0 <= x < rem@.len() ==> rem@[x] == removed0[opts@.len() + x],
            decreases rem@.len(),
        {
            let c = rem.remove(0);
            opts.push(Some(c));
        }
        let dense = entities.iter();
        let mut out: Vec<EntitySnapshot<C>> = Vec::new();
        let mut i: usize = 0;
        while i < dense.len()
            invariant
                me.wf(),
                me.entities == entities,
                dense@ == entities@,
                removed0 == me.removed@,
                opts@.len() == removed0.len(),
                i <= dense@.len(),
                forall|t: int|
                    i <= t < dense@.len() ==> match (#[trigger] dense@[t]).1 {
                        ChangeStatus::Added => true,
                        ChangeStatus::Modified(x) => opts@[x as int] == Some(removed0[x as int]),
                        ChangeStatus::Removed(x) => opts@[x as int] == Some(removed0[x as int]),
                    },
                out@.len() == i,
                forall|t: int|
                    0 <= t < i ==> (#[trigger] out@[t]).spec_id() == dense@[t].0 && out@[t].spec_kind()
                        == (match dense@[t].1 {
                        ChangeStatus::Added => ChangeKind::Added,
                        ChangeStatus::Modified(x) => ChangeKind::Modified(removed0[x as int]),
                        ChangeStatus::Removed(x) => ChangeKind::Removed(removed0[x as int]),
                    }),
            decreases dense@.len() - i,
        {
            let entry = dense[i];
            let e = entry.0;
            match entry.1 {
                ChangeStatus::Added => {
                    out.push(EntitySnapshot::new(EntityId::new(e), ChangeKind::Added));
                },
                ChangeStatus::Modified(x) => {
                    let mut tmp: Option<C> = None;
                    opts.set_and_swap(x, &mut tmp);
                    let c = tmp.unwrap();
                    proof {
                        assert forall|t: int|
                            i + 1 <= t < dense@.len() implies match (#[trigger] dense@[t]).1 {
                            ChangeStatus::Added => true,
                            ChangeStatus::Modified(y) => opts@[y as int] == Some(
                                removed0[y as int],
                            ),
                            ChangeStatus::Removed(y) => opts@[y as int] == Some(
                                removed0[y as int],
                            ),
                        } by {
                            assert(me.entities@[t] == dense@[t]);
                            assert(me.entities@[i as int] == dense@[i as int]);
                        }
                    }
                    out.push(EntitySnapshot::new(EntityId::new(e), ChangeKind::Modified(c)));
                },
                ChangeStatus::Removed(x) => {
                    let mut tmp: Option<C> = None;
                    opts.set_and_swap(x, &mut tmp);
                    let c = tmp.unwrap();
                    proof {
                        assert forall|t: int|
                            i + 1 <= t < dense@.len() implies match (#[trigger] dense@[t]).1 {
                            ChangeStatus::Added => true,
                            ChangeStatus::Modified(y) => opts@[y as int] == Some(
                                removed0[y as int],
                            ),
                            ChangeStatus::Removed(y) => opts@[y as int] == Some(
                                removed0[y as int],
                            ),
                        } by {
                            assert(me.entities@[t] == dense@[t]);
                            assert(me.entities@[i as int] == dense@[i as int]);
                        }
                    }
                    out.push(EntitySnapshot::new(EntityId::new(e), ChangeKind::Removed(c)));
                },
            }
            i = i + 1;
        }
        proof {
            assert forall|t: int|
                0 <= t < out@.len() implies (#[trigger] out@[t]).spec_id() == me.order()[t]
                && Some(out@[t].spec_kind()) == me.delta(me.order()[t]) by {
                let e = me.entities@[t].0;
                assert(me.order()[t] == e);
                me.entities.lemma_idx_of(e);
                assert(me.entities.idx_of(e) == t);
            }
        }
        out
    }
}

/// The consumed changes of one generation for one tracked type, in record
/// order.
pub struct QueryChanged<C> {
    snapshots: Vec<EntitySnapshot<C>>,
}

impl<C> View for QueryChanged<C> {
    type V = Seq<EntitySnapshot<C>>;

    closed spec fn view(&self) -> Seq<EntitySnapshot<C>> {
        self.snapshots@
    }
}

impl<C> QueryChanged<C> {
    /// Packages a consumed record.
    pub fn new(record: ChangeRecord<C>) -> (r: Self)
        requires
            record.wf(),
        ensures
            r@.len() == record.order().len(),
            forall|i: int|
                0 <= i < r@.len() ==> (#[trigger] r@[i]).spec_id() == record.order()[i] && Some(
                    r@[i].spec_kind(),
                ) == record.delta(record.order()[i]),
    {
        QueryChanged { snapshots: record.into_snapshots() }
    }

    /// Surrenders the snapshots, in record order.
    pub fn snapshots(self) -> (r: Vec<EntitySnapshot<C>>)
        ensures
            r@ == self@,
    {
        self.snapshots
    }

    /// The entities whose component was added or replaced this generation
    /// (those that still carry it), in record order.
    pub fn added(self) -> (r: Vec<EntityId>)
        ensures
            r@.len() == Self::added_of(self@).len(),
            forall|i: int| 0 <= i < r@.len() ==> (#[trigger] r@[i])@ == Self::added_of(self@)[i],
    {
        let ghost all = self.snapshots@;
        let mut out: Vec<EntityId> = Vec::new();
        let mut i: usize = 0;
        while i < self.snapshots.len()
            invariant
                all == self.snapshots@,
                i <= all.len(),
                out@.len() == Self::added_of(all.take(i as int)).len(),
                forall|u: int|
                    0 <= u < out@.len() ==> (#[trigger] out@[u])@ == Self::added_of(
                        all.take(i as int),
                    )[u],
            decreases all.len() - i,
        {
            let keep = match &self.snapshots[i].kind {
                ChangeKind::Removed(_) => false,
                _ => true,
            };
            if keep {
                out.push(self.snapshots[i].id);
            }
            proof {
                assert(all.take(i as int + 1).drop_last() =~= all.take(i as int));
                assert(all.take(i as int + 1).last() == all[i as int]);
            }
            i = i + 1;
        }
        proof {
            assert(all.take(all.len() as int) =~= all);
        }
        out
    }

    /// The ids of the snapshots that are not removals, in order.
    pub open spec fn added_of(s: Seq<EntitySnapshot<C>>) -> Seq<usize>
        decreases s.len(),
    {
        if s.len() == 0 {
            Seq::empty()
        } else {
            Self::added_of(s.drop_last()) + (if s.last().spec_kind() is Removed {
                Seq::empty()
            } else {
                seq![s.last().spec_id()]
            })
        }
    }

    /// The (id, earliest previous value) pairs of the modifications, in
    /// order.
    pub open spec fn modified_of(s: Seq<EntitySnapshot<C>>) -> Seq<(usize, C)>
        decreases s.len(),
    {
        if s.len() == 0 {
            Seq::empty()
        } else {
            Self::modified_of(s.drop_last()) + (match s.last().spec_kind() {
                ChangeKind::Modified(c) => seq![(s.last().spec_id(), c)],
                _ => Seq::empty(),
            })
        }
    }

    /// The (id, previous value) pairs of the modifications and removals, in
    /// order.
    pub open spec fn removed_of(s: Seq<EntitySnapshot<C>>) -> Seq<(usize, C)>
        decreases s.len(),
    {
        if s.len() == 0 {
            Seq::empty()
        } else {
            Self::removed_of(s.drop_last()) + (match s.last().spec_kind() {
                ChangeKind::Modified(c) => seq![(s.last().spec_id(), c)],
                ChangeKind::Removed(c) => seq![(s.last().spec_id(), c)],
                ChangeKind::Added => Seq::empty(),
            })
        }
    }

    /// The (entity, earliest previous value) pairs of the components that
    /// were replaced and are still present, in record order.
    pub fn modified(self) -> (r: Vec<(EntityId, C)>)
        ensures
            r@.len() == Self::modified_of(self@).len(),
            forall|u: int|
                0 <= u < r@.len() ==> (#[trigger] r@[u]).0@ == Self::modified_of(self@)[u].0
                    && r@[u].1 == Self::modified_of(self@)[u].1,
    {
        let ghost all = self.snapshots@;
        let mut out: Vec<(EntityId, C)> = Vec::new();
        let ghost mut t: int = 0;
        let mut src = self.snapshots;
        while src.len() > 0
            invariant
                0 <= t,
                t + src@.len() == all.len(),
                forall|x: int| 0 <= x < src@.len() ==> src@[x] == all[t + x],
                out@.len() == Self::modified_of(all.take(t)).len(),
                forall|u: int|
                    0 <= u < out@.len() ==> (#[trigger] out@[u]).0@ == Self::modified_of(
                        all.take(t),
                    )[u].0 && out@[u].1 == Self::modified_of(all.take(t))[u].1,
            decreases src@.len(),
        {
            let snap = src.remove(0);
            proof {
                assert(snap == all[t]);
                assert(all.take(t + 1).drop_last() =~= all.take(t));
                assert(all.take(t + 1).last() == all[t]);
            }
            match snap.kind {
                ChangeKind::Modified(c) => {
                    out.push((snap.id, c));
                },
                _ => {},
            }
            proof {
                t = t + 1;
            }
        }
        proof {
            assert(all.take(all.len() as int) =~= all);
        }
        out
    }

    /// The (entity, previous value) pairs of the components that were
    /// replaced or removed, in record order.
    pub fn removed(self) -> (r: Vec<(EntityId, C)>)
        ensures
            r@.len() == Self::removed_of(self@).len(),
            forall|u: int|
                0 <= u < r@.len() ==> (#[trigger] r@[u]).0@ == Self::removed_of(self@)[u].0 && r@[
                    u].1 == Self::removed_of(self@)[u].1,
    {
        let ghost all = self.snapshots@;
        let mut out: Vec<(EntityId, C)> = Vec::new();
        let ghost mut t: int = 0;
        let mut src = self.snapshots;
        while src.len() > 0
            invariant
                0 <= t,
                t + src@.len() == all.len(),
                forall|x: int| 0 <= x < src@.len() ==> src@[x] == all[t + x],
                out@.len() == Self::removed_of(all.take(t)).len(),
                forall|u: int|
                    0 <= u < out@.len() ==> (#[trigger] out@[u]).0@ == Self::removed_of(
                        all.take(t),
                    )[u].0 && out@[u].1 == Self::removed_of(all.take(t))[u].1,
            decreases src@.len(),
        {
            let snap = src.remove(0);
            proof {
                assert(snap == all[t]);
                assert(all.take(t + 1).drop_last() =~= all.take(t));
                assert(all.take(t + 1).last() == all[t]);
            }
            match snap.kind {
                ChangeKind::Modified(c) => {
                    out.push((snap.id, c));
                },
                ChangeKind::Removed(c) => {
                    out.push((snap.id, c));
                },
                ChangeKind::Added => {},
            }
            proof {
                t = t + 1;
            }
        }
        proof {
            assert(all.take(all.len() as int) =~= all);
        }
        out
    }
}

} // verus!
