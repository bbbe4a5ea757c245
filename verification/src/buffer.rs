//! The deferred-mutation buffer: structural edits queued while a scan is
//! running, applied as one batch afterwards.
//!
//! Every public verb only appends an intent; nothing touches storage until
//! `apply_world`.  The flush replays spawns, then despawns, then one
//! coalesced modification per touched entity (intents for one entity merge
//! key-by-key, the latest winning), then resource writes in queue order.
//! Despawning an entity discards its still-queued modifications, so a
//! flush can never resurrect or partially modify it.

use vstd::prelude::*;

verus! {

use crate::component::{ComponentBundle, ComponentChange};
use crate::entities::EntityId;
use crate::sparse_set::SparseSet;
use crate::world::World;

/// Whether `k` occurs among the first `t` entries of `b`.
pub open spec fn key_before<C>(b: Seq<(usize, C)>, t: int, k: usize) -> bool {
    exists|j: int| 0 <= j < t && (#[trigger] b[j]).0 == k
}

/// Queued edits for one entity that already exists: one pending change per
/// type key, the latest tendered one winning.
pub struct ExistingEntityBuffer<C> {
    id: EntityId,
    changes: ComponentBundle<ComponentChange<C>>,
}

impl<C> ExistingEntityBuffer<C> {
    /// Each pending change sits under its own type key.
    pub closed spec fn wf(&self) -> bool {
        &&& self.changes.wf()
        &&& forall|i: int|
            0 <= i < self.changes@.len() ==> (#[trigger] self.changes@[i]).1.key()
                == self.changes@[i].0 && self.changes@[i].0 < usize::MAX
    }

    /// The entity the buffer is for.
    pub closed spec fn spec_id(&self) -> usize {
        self.id@
    }

    /// The pending changes, in first-touch key order.
    pub closed spec fn pending(&self) -> Seq<(usize, ComponentChange<C>)> {
        self.changes@
    }

    /// Whether a change is pending under type key `k`.
    pub closed spec fn has_pending(&self, k: usize) -> bool {
        self.changes.has_key(k)
    }

    /// The pending change under `k` (meaningful when `has_pending`).
    pub closed spec fn pending_at(&self, k: usize) -> ComponentChange<C> {
        self.changes.spec_get(k)
    }

    pub fn new(id: EntityId) -> (r: Self)
        ensures
            r.wf(),
            r.spec_id() == id@,
            r.pending() == Seq::<(usize, ComponentChange<C>)>::empty(),
            forall|k: usize| !(#[trigger] r.has_pending(k)),
    {
        ExistingEntityBuffer { id, changes: ComponentBundle::new() }
    }

    pub fn id(&self) -> (r: EntityId)
        ensures
            r@ == self.spec_id(),
    {
        self.id
    }

    /// Queues one insertion per bundle member, overwriting any pending
    /// change under the same key.
    #[verifier::rlimit(60)]
    pub fn insert(&mut self, components: ComponentBundle<C>)
        requires
            old(self).wf(),
            components.wf(),
            forall|i: int| 0 <= i < components@.len() ==> (#[trigger] components@[i]).0
                < usize::MAX,
        ensures
            final(self).wf(),
            final(self).spec_id() == old(self).spec_id(),
            forall|k: usize| #[trigger]
                components.has_key(k) ==> final(self).has_pending(k) && final(self).pending_at(k)
                    == ComponentChange::Insert(k, components.spec_get(k)),
            forall|k: usize|
                !components.has_key(k) ==> (#[trigger] final(self).has_pending(k) <==> old(
                    self,
                ).has_pending(k)) && (old(self).has_pending(k) ==> final(self).pending_at(k)
                    == old(self).pending_at(k)),
    {
        let ghost b0 = components@;
        let mut entries = components.into_entries();
        let ghost mut t: int = 0;
        while entries.len() > 0
            invariant
                self.wf(),
                self.spec_id() == old(self).spec_id(),
                components.wf(),
                b0 == components@,
                0 <= t <= b0.len(),
                entries@ == b0.skip(t),
                forall|x: int| 0 <= x < b0.len() ==> (#[trigger] b0[x]).0 < usize::MAX,
                forall|k: usize| #![trigger self.has_pending(k)]
                    key_before(b0, t, k) ==> self.has_pending(k) && self.pending_at(k)
                        == ComponentChange::Insert(k, components.spec_get(k)),
                forall|k: usize| #![trigger self.has_pending(k)]
                    !key_before(b0, t, k) ==> (self.has_pending(k) <==> old(self).has_pending(k))
                        && (old(self).has_pending(k) ==> self.pending_at(k) == old(
                        self,
                    ).pending_at(k)),
            decreases entries@.len(),
        {
            let entry = entries.remove(0);
            let k = entry.0;
            let ghost prior = self.changes;
            proof {
                assert(entries@ =~= b0.skip(t + 1));
                assert(b0.skip(t)[0] == b0[t]);
                assert(entry == b0[t]);
                components.lemma_idx_of(k);
                assert(components.idx_of(k) == t);
                assert(entry.1 == components.spec_get(k));
                assert forall|k2: usize| #![trigger prior.has_key(k2)]
                    key_before(b0, t, k2) implies prior.has_key(k2) && prior.spec_get(k2)
                    == ComponentChange::Insert(k2, components.spec_get(k2)) by {
                    assert(self.has_pending(k2));
                    assert(self.pending_at(k2) == ComponentChange::Insert(
                        k2,
                        components.spec_get(k2),
                    ));
                }
                assert forall|k2: usize| #![trigger prior.has_key(k2)]
                    !key_before(b0, t, k2) implies (prior.has_key(k2) <==> old(self).has_pending(
                    k2,
                )) && (old(self).has_pending(k2) ==> prior.spec_get(k2) == old(self).pending_at(
                    k2,
                )) by {
                    assert(self.has_pending(k2) <==> old(self).has_pending(k2));
                    if old(self).has_pending(k2) {
                        assert(self.pending_at(k2) == old(self).pending_at(k2));
                    }
                }
            }
            self.changes.insert(k, ComponentChange::Insert(k, entry.1));
            proof {
                assert forall|i: int| 0 <= i < self.changes@.len() implies (
                #[trigger] self.changes@[i]).1.key() == self.changes@[i].0 && self.changes@[i].0
                    < usize::MAX by {
                    if prior.has_key(k) {
                        prior.lemma_idx_of(k);
                        let at = prior.idx_of(k);
                        if i != at {
                            assert(self.changes@[i] == prior@[i]);
                        }
                    } else {
                        if i < prior@.len() {
                            assert(self.changes@[i] == prior@[i]);
                        }
                    }
                }
                assert forall|k2: usize| #![trigger self.has_pending(k2)]
                    key_before(b0, t + 1, k2) implies self.has_pending(k2) && self.pending_at(k2)
                    == ComponentChange::Insert(k2, components.spec_get(k2)) by {
                    if k2 == k {
                        assert(self.changes.has_key(k));
                        assert(self.changes.spec_get(k) == ComponentChange::Insert(k, entry.1));
                    } else {
                        let j = choose|j: int| 0 <= j < t + 1 && (#[trigger] b0[j]).0 == k2;
                        assert(j < t);
                        assert(key_before(b0, t, k2));
                        assert(prior.has_key(k2));
                        assert(prior.spec_get(k2) == ComponentChange::Insert(
                            k2,
                            components.spec_get(k2),
                        ));
                        assert(self.changes.has_key(k2));
                        assert(self.changes.spec_get(k2) == prior.spec_get(k2));
                    }
                }
                assert forall|k2: usize| #![trigger self.has_pending(k2)]
                    !key_before(b0, t + 1, k2) implies (self.has_pending(k2) <==> old(
                    self,
                ).has_pending(k2)) && (old(self).has_pending(k2) ==> self.pending_at(k2) == old(
                    self,
                ).pending_at(k2)) by {
                    assert(b0[t].0 == k);
                    assert(k2 != k);
                    assert(!key_before(b0, t, k2)) by {
                        if key_before(b0, t, k2) {
                            let j = choose|j: int| 0 <= j < t && (#[trigger] b0[j]).0 == k2;
                            assert(key_before(b0, t + 1, k2));
                        }
                    }
                    assert(prior.has_key(k2) <==> old(self).has_pending(k2));
                    if old(self).has_pending(k2) {
                        assert(prior.spec_get(k2) == old(self).pending_at(k2));
                    }
                    assert(self.changes.has_key(k2) <==> prior.has_key(k2));
                    if prior.has_key(k2) {
                        assert(self.changes.spec_get(k2) == prior.spec_get(k2));
                    }
                }
                t = t + 1;
            }
        }
        proof {
            assert forall|k: usize| #[trigger]
                components.has_key(k) implies self.has_pending(k) && self.pending_at(k)
                == ComponentChange::Insert(k, components.spec_get(k)) by {
                let j = choose|j: int| 0 <= j < b0.len() && (#[trigger] b0[j]).0 == k;
                assert(key_before(b0, t, k));
            }
            assert forall|k: usize|
                !components.has_key(k) implies (#[trigger] self.has_pending(k) <==> old(
                self,
            ).has_pending(k)) && (old(self).has_pending(k) ==> self.pending_at(k) == old(
                self,
            ).pending_at(k)) by {
                assert(!key_before(b0, t, k)) by {
                    if key_before(b0, t, k) {
                        let j = choose|j: int| 0 <= j < t && (#[trigger] b0[j]).0 == k;
                    }
                }
            }
        }
    }

    /// Queues one removal per key, overwriting any pending change under the
    /// same key.
    pub fn remove(&mut self, keys: &Vec<usize>)
        requires
            old(self).wf(),
            forall|i: int| 0 <= i < keys@.len() ==> (#[trigger] keys@[i]) < usize::MAX,
        ensures
            final(self).wf(),
            final(self).spec_id() == old(self).spec_id(),
            forall|k: usize| #[trigger]
                keys@.contains(k) ==> final(self).has_pending(k) && final(self).pending_at(k)
                    == ComponentChange::<C>::Remove(k),
            forall|k: usize|
                !keys@.contains(k) ==> (#[trigger] final(self).has_pending(k) <==> old(
                    self,
                ).has_pending(k)) && (old(self).has_pending(k) ==> final(self).pending_at(k)
                    == old(self).pending_at(k)),
    {
        let mut i: usize = 0;
        while i < keys.len()
            invariant
                self.wf(),
                self.spec_id() == old(self).spec_id(),
                i <= keys@.len(),
                forall|j: int| 0 <= j < keys@.len() ==> (#[trigger] keys@[j]) < usize::MAX,
                forall|j: int| #![trigger keys@[j]]
                    0 <= j < i ==> self.has_pending(keys@[j]) && self.pending_at(keys@[j])
                        == ComponentChange::<C>::Remove(keys@[j]),
                forall|k: usize| #![trigger self.has_pending(k)]
                    !key_before(keys@.map_values(|x: usize| (x, 0usize)), i as int, k) ==> (
                    self.has_pending(k) <==> old(self).has_pending(k)) && (old(self).has_pending(
                        k,
                    ) ==> self.pending_at(k) == old(self).pending_at(k)),
            decreases keys@.len() - i,
        {
            let k = keys[i];
            let ghost prior = self.changes;
            proof {
                let marks0 = keys@.map_values(|x: usize| (x, 0usize));
                assert forall|j: int| #![trigger keys@[j]]
                    0 <= j < i implies prior.has_key(keys@[j]) && prior.spec_get(keys@[j])
                    == ComponentChange::<C>::Remove(keys@[j]) by {
                    assert(self.has_pending(keys@[j]));
                    assert(self.pending_at(keys@[j]) == ComponentChange::<C>::Remove(keys@[j]));
                }
                assert forall|k2: usize| #![trigger prior.has_key(k2)]
                    !key_before(marks0, i as int, k2) implies (prior.has_key(k2) <==> old(
                    self,
                ).has_pending(k2)) && (old(self).has_pending(k2) ==> prior.spec_get(k2) == old(
                    self,
                ).pending_at(k2)) by {
                    assert(self.has_pending(k2) <==> old(self).has_pending(k2));
                    if old(self).has_pending(k2) {
                        assert(self.pending_at(k2) == old(self).pending_at(k2));
                    }
                }
            }
            self.changes.insert(k, ComponentChange::Remove(k));
            proof {
                assert forall|t: int| 0 <= t < self.changes@.len() implies (
                #[trigger] self.changes@[t]).1.key() == self.changes@[t].0 && self.changes@[t].0
                    < usize::MAX by {
                    if prior.has_key(k) {
                        prior.lemma_idx_of(k);
                        let at = prior.idx_of(k);
                        if t != at {
                            assert(self.changes@[t] == prior@[t]);
                        }
                    } else {
                        if t < prior@.len() {
                            assert(self.changes@[t] == prior@[t]);
                        }
                    }
                }
                let ghost marks = keys@.map_values(|x: usize| (x, 0usize));
                assert forall|j: int| #![trigger keys@[j]]
                    0 <= j < i + 1 implies self.has_pending(keys@[j]) && self.pending_at(keys@[j])
                    == ComponentChange::<C>::Remove(keys@[j]) by {
                    if j == i as int || keys@[j] == k {
                        assert(self.changes.has_key(k));
                        assert(self.changes.spec_get(k) == ComponentChange::<C>::Remove(k));
                    } else {
                        assert(prior.has_key(keys@[j]) && prior.spec_get(keys@[j])
                            == ComponentChange::<C>::Remove(keys@[j]));
                        assert(self.changes.has_key(keys@[j]) && self.changes.spec_get(keys@[j])
                            == prior.spec_get(keys@[j]));
                    }
                }
                assert forall|k2: usize| #![trigger self.has_pending(k2)]
                    !key_before(marks, i as int + 1, k2) implies (self.has_pending(k2) <==> old(
                    self,
                ).has_pending(k2)) && (old(self).has_pending(k2) ==> self.pending_at(k2) == old(
                    self,
                ).pending_at(k2)) by {
                    assert(marks[i as int].0 == k);
                    assert(k2 != k);
                    assert(!key_before(marks, i as int, k2)) by {
                        if key_before(marks, i as int, k2) {
                            let j = choose|j: int|
                                0 <= j < i && (#[trigger] marks[j]).0 == k2;
                            assert(key_before(marks, i as int + 1, k2));
                        }
                    }
                    assert(prior.has_key(k2) <==> old(self).has_pending(k2));
                    if old(self).has_pending(k2) {
                        assert(prior.spec_get(k2) == old(self).pending_at(k2));
                    }
                    assert(self.changes.has_key(k2) <==> prior.has_key(k2));
                    if prior.has_key(k2) {
                        assert(self.changes.spec_get(k2) == prior.spec_get(k2));
                    }
                }
            }
            i = i + 1;
        }
        proof {
            let marks = keys@.map_values(|x: usize| (x, 0usize));
            assert forall|k: usize| #[trigger]
                keys@.contains(k) implies self.has_pending(k) && self.pending_at(k)
                == ComponentChange::<C>::Remove(k) by {
                let j = choose|j: int| 0 <= j < keys@.len() && keys@[j] == k;
                assert(self.has_pending(keys@[j]));
            }
            assert forall|k: usize|
                !keys@.contains(k) implies (#[trigger] self.has_pending(k) <==> old(
                self,
            ).has_pending(k)) && (old(self).has_pending(k) ==> self.pending_at(k) == old(
                self,
            ).pending_at(k)) by {
                assert(!key_before(marks, keys@.len() as int, k)) by {
                    if key_before(marks, keys@.len() as int, k) {
                        let j = choose|j: int|
                            0 <= j < keys@.len() && (#[trigger] marks[j]).0 == k;
                        assert(marks[j].0 == keys@[j]);
                        assert(keys@.contains(keys@[j]));
                    }
                }
            }
        }
    }

    /// Surrenders the coalesced changes, in first-touch key order.
    pub fn into_changes(self) -> (r: Vec<ComponentChange<C>>)
        requires
            self.wf(),
        ensures
            r@.len() == self.pending().len(),
            forall|i: int| 0 <= i < r@.len() ==> (#[trigger] r@[i]) == self.pending()[i].1
                && r@[i].key() < usize::MAX,
    {
        let ghost me = self;
        let mut entries = self.changes.into_entries();
        let mut out: Vec<ComponentChange<C>> = Vec::new();
        let ghost mut t: int = 0;
        while entries.len() > 0
            invariant
                me.wf(),
                0 <= t <= me.pending().len(),
                entries@ == me.pending().skip(t),
                out@.len() == t,
                forall|i: int| 0 <= i < t ==> (#[trigger] out@[i]) == me.pending()[i].1
                    && out@[i].key() < usize::MAX,
            decreases entries@.len(),
        {
            let entry = entries.remove(0);
            proof {
                assert(entries@ =~= me.pending().skip(t + 1));
                assert(me.pending().skip(t)[0] == me.pending()[t]);
                assert(entry == me.pending()[t]);
            }
            out.push(entry.1);
            proof {
                t = t + 1;
            }
        }
        out
    }
}

/// Queued components for an entity that will be spawned at flush time.
pub struct SpawnedEntityBuffer<C> {
    components: ComponentBundle<C>,
}

impl<C> SpawnedEntityBuffer<C> {
    pub closed spec fn wf(&self) -> bool {
        &&& self.components.wf()
        &&& forall|i: int|
            0 <= i < self.components@.len() ==> (#[trigger] self.components@[i]).0 < usize::MAX
    }

    /// The payload so far.
    pub closed spec fn bundle(&self) -> ComponentBundle<C> {
        self.components
    }

    pub fn new() -> (r: Self)
        ensures
            r.wf(),
            forall|k: usize| !(#[trigger] r.bundle().has_key(k)),
    {
        SpawnedEntityBuffer { components: ComponentBundle::new() }
    }

    /// Adds (or replaces) components in the pending spawn payload.
    pub fn insert(&mut self, components: ComponentBundle<C>)
        requires
            old(self).wf(),
            components.wf(),
            forall|i: int| 0 <= i < components@.len() ==> (#[trigger] components@[i]).0
                < usize::MAX,
        ensures
            final(self).wf(),
            forall|k: usize| #[trigger]
                components.has_key(k) ==> final(self).bundle().has_key(k)
                    && final(self).bundle().spec_get(k) == components.spec_get(k),
            forall|k: usize| #![trigger final(self).bundle().has_key(k)]
                !components.has_key(k) ==> (final(self).bundle().has_key(k) <==> old(
                    self,
                ).bundle().has_key(k)) && (old(self).bundle().has_key(k)
                    ==> final(self).bundle().spec_get(k) == old(self).bundle().spec_get(k)),
    {
        let ghost b0 = components@;
        let mut entries = components.into_entries();
        let ghost mut t: int = 0;
        while entries.len() > 0
            invariant
                self.wf(),
                components.wf(),
                b0 == components@,
                0 <= t <= b0.len(),
                entries@ == b0.skip(t),
                forall|x: int| 0 <= x < b0.len() ==> (#[trigger] b0[x]).0 < usize::MAX,
                forall|k: usize| #![trigger self.bundle().has_key(k)]
                    key_before(b0, t, k) ==> self.bundle().has_key(k) && self.bundle().spec_get(k)
                        == components.spec_get(k),
                forall|k: usize| #![trigger self.bundle().has_key(k)]
                    !key_before(b0, t, k) ==> (self.bundle().has_key(k) <==> old(
                        self,
                    ).bundle().has_key(k)) && (old(self).bundle().has_key(k)
                        ==> self.bundle().spec_get(k) == old(self).bundle().spec_get(k)),
            decreases entries@.len(),
        {
            let entry = entries.remove(0);
            let k = entry.0;
            let ghost prior = self.components;
            proof {
                assert(entries@ =~= b0.skip(t + 1));
                assert(b0.skip(t)[0] == b0[t]);
                assert(entry == b0[t]);
                components.lemma_idx_of(k);
                assert(components.idx_of(k) == t);
                assert(entry.1 == components.spec_get(k));
                assert forall|k2: usize| #![trigger prior.has_key(k2)]
                    key_before(b0, t, k2) implies prior.has_key(k2) && prior.spec_get(k2)
                    == components.spec_get(k2) by {
                    assert(self.bundle().has_key(k2));
                    assert(self.bundle().spec_get(k2) == components.spec_get(k2));
                }
                assert forall|k2: usize| #![trigger prior.has_key(k2)]
                    !key_before(b0, t, k2) implies (prior.has_key(k2) <==> old(
                    self,
                ).bundle().has_key(k2)) && (old(self).bundle().has_key(k2) ==> prior.spec_get(k2)
                    == old(self).bundle().spec_get(k2)) by {
                    assert(self.bundle().has_key(k2) <==> old(self).bundle().has_key(k2));
                    if old(self).bundle().has_key(k2) {
                        assert(self.bundle().spec_get(k2) == old(self).bundle().spec_get(k2));
                    }
                }
            }
            self.components.insert(k, entry.1);
            proof {
                assert forall|i: int| 0 <= i < self.components@.len() implies (
                #[trigger] self.components@[i]).0 < usize::MAX by {
                    if prior.has_key(k) {
                        prior.lemma_idx_of(k);
                        let at = prior.idx_of(k);
                        if i != at {
                            assert(self.components@[i] == prior@[i]);
                        }
                    } else {
                        if i < prior@.len() {
                            assert(self.components@[i] == prior@[i]);
                        }
                    }
                }
                assert forall|k2: usize| #![trigger self.bundle().has_key(k2)]
                    key_before(b0, t + 1, k2) implies self.bundle().has_key(k2)
                    && self.bundle().spec_get(k2) == components.spec_get(k2) by {
                    if k2 == k {
                        assert(self.components.has_key(k));
                        assert(self.components.spec_get(k) == entry.1);
                    } else {
                        let j = choose|j: int| 0 <= j < t + 1 && (#[trigger] b0[j]).0 == k2;
                        assert(j < t);
                        assert(key_before(b0, t, k2));
                        assert(prior.has_key(k2));
                        assert(prior.spec_get(k2) == components.spec_get(k2));
                        assert(self.components.has_key(k2));
                        assert(self.components.spec_get(k2) == prior.spec_get(k2));
                    }
                }
                assert forall|k2: usize| #![trigger self.bundle().has_key(k2)]
                    !key_before(b0, t + 1, k2) implies (self.bundle().has_key(k2) <==> old(
                    self,
                ).bundle().has_key(k2)) && (old(self).bundle().has_key(k2)
                    ==> self.bundle().spec_get(k2) == old(self).bundle().spec_get(k2)) by {
                    assert(b0[t].0 == k);
                    assert(k2 != k);
                    assert(!key_before(b0, t, k2)) by {
                        if key_before(b0, t, k2) {
                            let j = choose|j: int| 0 <= j < t && (#[trigger] b0[j]).0 == k2;
                            assert(key_before(b0, t + 1, k2));
                        }
                    }
                    assert(prior.has_key(k2) <==> old(self).bundle().has_key(k2));
                    if old(self).bundle().has_key(k2) {
                        assert(prior.spec_get(k2) == old(self).bundle().spec_get(k2));
                    }
                    assert(self.components.has_key(k2) <==> prior.has_key(k2));
                    if prior.has_key(k2) {
                        assert(self.components.spec_get(k2) == prior.spec_get(k2));
                    }
                }
                t = t + 1;
            }
        }
        proof {
            assert forall|k: usize| #[trigger]
                components.has_key(k) implies self.bundle().has_key(k) && self.bundle().spec_get(
                k,
            ) == components.spec_get(k) by {
                let j = choose|j: int| 0 <= j < b0.len() && (#[trigger] b0[j]).0 == k;
                assert(key_before(b0, t, k));
            }
            assert forall|k: usize| #![trigger self.bundle().has_key(k)]
                !components.has_key(k) implies (self.bundle().has_key(k) <==> old(
                self,
            ).bundle().has_key(k)) && (old(self).bundle().has_key(k) ==> self.bundle().spec_get(
                k,
            ) == old(self).bundle().spec_get(k)) by {
                assert(!key_before(b0, t, k)) by {
                    if key_before(b0, t, k) {
                        let j = choose|j: int| 0 <= j < t && (#[trigger] b0[j]).0 == k;
                    }
                }
            }
        }
    }

    /// Drops keys from the pending spawn payload.
    pub fn remove(&mut self, keys: &Vec<usize>)
        requires
            old(self).wf(),
        ensures
            final(self).wf(),
    {
        let mut i: usize = 0;
        while i < keys.len()
            invariant
                self.wf(),
                i <= keys@.len(),
            decreases keys@.len() - i,
        {
            let _dropped = self.components.remove(keys[i]);
            i = i + 1;
        }
    }

    /// Surrenders the spawn payload.
    pub fn into_components(self) -> (r: ComponentBundle<C>)
        requires
            self.wf(),
        ensures
            r == self.bundle(),
            r.wf(),
            forall|i: int| 0 <= i < r@.len() ==> (#[trigger] r@[i]).0 < usize::MAX,
    {
        self.components
    }
}

/// Stores changes to the world when they cannot be applied immediately:
/// for example, while a query's results are being walked.
pub struct WorldBuffer<C> {
    spawned_entities: Vec<SpawnedEntityBuffer<C>>,
    despawned_entities: Vec<EntityId>,
    existing_entities: SparseSet<ExistingEntityBuffer<C>>,
    resources: Vec<(usize, Option<C>)>,
}

impl<C> WorldBuffer<C> {
    /// Every queued intent is internally well formed.
    pub closed spec fn wf(&self) -> bool {
        &&& self.existing_entities.wf()
        &&& forall|i: int|
            0 <= i < self.spawned_entities@.len() ==> (#[trigger] self.spawned_entities@[i]).wf()
        &&& forall|i: int|
            0 <= i < self.existing_entities@.len() ==> (#[trigger] self.existing_entities@[i]).1.wf()
                && self.existing_entities@[i].1.spec_id() == self.existing_entities@[i].0
        &&& forall|i: int|
            0 <= i < self.resources@.len() ==> (#[trigger] self.resources@[i]).0 < usize::MAX
    }

    /// The entities queued for despawning, in queue order.
    pub closed spec fn despawns(&self) -> Seq<usize> {
        Seq::new(self.despawned_entities@.len(), |i: int| self.despawned_entities@[i]@)
    }

    /// How many spawns are queued.
    pub closed spec fn spawn_count(&self) -> int {
        self.spawned_entities@.len() as int
    }

    /// The queued spawn payloads, in queue order.
    pub closed spec fn spawn_payloads(&self) -> Seq<ComponentBundle<C>> {
        Seq::new(self.spawned_entities@.len(), |i: int| self.spawned_entities@[i].bundle())
    }

    /// The coalesced change list pending for entity `e`, in first-touch key
    /// order (meaningful when `has_modify`).
    pub open spec fn pending_changes(&self, e: usize) -> Seq<ComponentChange<C>> {
        Seq::new(
            self.pending_of(e).pending().len(),
            |i: int| self.pending_of(e).pending()[i].1,
        )
    }

    /// Whether a coalesced modification is pending for entity `e`.
    pub closed spec fn has_modify(&self, e: usize) -> bool {
        self.existing_entities.has_key(e)
    }

    /// The coalesced modification buffer of entity `e` (meaningful when
    /// `has_modify`).
    pub closed spec fn pending_of(&self, e: usize) -> ExistingEntityBuffer<C> {
        self.existing_entities.spec_get(e)
    }

    /// The queued resource writes, in queue order: a value to store, or
    /// `None` for a removal.
    pub closed spec fn res_queue(&self) -> Seq<(usize, Option<C>)> {
        self.resources@
    }

    /// The last queued resource write that concerns `k`, if any: under
    /// last-write-wins, the one that decides the flushed state.
    pub open spec fn last_res_op(q: Seq<(usize, Option<C>)>, k: usize) -> Option<Option<C>>
        decreases q.len(),
    {
        if q.len() == 0 {
            None
        } else if q.last().0 == k {
            Some(q.last().1)
        } else {
            Self::last_res_op(q.drop_last(), k)
        }
    }

    pub fn new() -> (r: Self)
        ensures
            r.wf(),
            r.despawns() == Seq::<usize>::empty(),
            r.spawn_count() == 0,
            forall|e: usize| !(#[trigger] r.has_modify(e)),
    {
        let r = WorldBuffer {
            spawned_entities: Vec::new(),
            despawned_entities: Vec::new(),
            existing_entities: SparseSet::new(),
            resources: Vec::new(),
        };
        proof {
            assert(r.despawns() =~= Seq::<usize>::empty());
        }
        r
    }

    /// Queues spawning a new entity with the bundle.
    pub fn spawn(&mut self, bundle: ComponentBundle<C>)
        requires
            old(self).wf(),
            bundle.wf(),
            forall|i: int| 0 <= i < bundle@.len() ==> (#[trigger] bundle@[i]).0 < usize::MAX,
        ensures
            final(self).wf(),
            final(self).despawns() == old(self).despawns(),
            final(self).spawn_count() == old(self).spawn_count() + 1,
            final(self).res_queue() == old(self).res_queue(),
            forall|e: usize| #[trigger] final(self).has_modify(e) <==> old(self).has_modify(e),
            forall|e: usize|
                old(self).has_modify(e) ==> #[trigger] final(self).pending_of(e) == old(
                    self,
                ).pending_of(e),
            final(self).spawn_payloads().len() == old(self).spawn_payloads().len() + 1,
            forall|i: int| #![trigger final(self).spawn_payloads()[i]]
                0 <= i < old(self).spawn_payloads().len()
                    ==> final(self).spawn_payloads()[i] == old(self).spawn_payloads()[i],
            forall|k: usize| #[trigger]
                final(self).spawn_payloads().last().has_key(k) <==> bundle.has_key(k),
            forall|k: usize|
                bundle.has_key(k) ==> #[trigger] final(self).spawn_payloads().last().spec_get(k)
                    == bundle.spec_get(k),
    {
        let mut buffer = SpawnedEntityBuffer::new();
        buffer.insert(bundle);
        self.spawned_entities.push(buffer);
        proof {
            assert(self.despawns() =~= old(self).despawns());
            assert(self.spawn_payloads().last() == buffer.bundle());
            assert forall|k: usize| #[trigger]
                self.spawn_payloads().last().has_key(k) <==> bundle.has_key(k) by {
                if bundle.has_key(k) {
                    assert(buffer.bundle().has_key(k));
                } else {
                    assert(buffer.bundle().has_key(k) <==> false);
                }
            }
        }
    }

    /// Queues despawning `id` and discards its still-queued modifications:
    /// a despawn always wins over earlier modifications of the same entity
    /// in the same buffer.
    pub fn despawn(&mut self, id: EntityId)
        requires
            old(self).wf(),
        ensures
            final(self).wf(),
            final(self).despawns() == old(self).despawns().push(id@),
            final(self).spawn_count() == old(self).spawn_count(),
            final(self).res_queue() == old(self).res_queue(),
            final(self).spawn_payloads() == old(self).spawn_payloads(),
            !final(self).has_modify(id@),
            forall|e: usize|
                e != id@ ==> (#[trigger] final(self).has_modify(e) <==> old(self).has_modify(e)),
            forall|e: usize|
                e != id@ && old(self).has_modify(e) ==> #[trigger] final(self).pending_of(e)
                    == old(self).pending_of(e),
    {
        self.despawned_entities.push(id);
        let ghost mid = self.existing_entities;
        let _dropped = self.existing_entities.remove(id.id());
        proof {
            assert(self.despawns() =~= old(self).despawns().push(id@));
            assert forall|i: int|
                0 <= i < self.existing_entities@.len() implies (
            #[trigger] self.existing_entities@[i]).1.wf() by {
                if !mid.has_key(id@) {
                    assert(self.existing_entities@[i] == mid@[i]);
                } else {
                    mid.lemma_idx_of(id@);
                    let at = mid.idx_of(id@);
                    if i == at {
                        assert(self.existing_entities@[i] == mid@[mid@.len() - 1]);
                    } else {
                        assert(self.existing_entities@[i] == mid@[i]);
                    }
                }
            }
        }
    }

    /// Queues inserting the bundle's components on existing entity `id`,
    /// coalescing with earlier intents for the same entity.
    pub fn insert(&mut self, id: EntityId, components: ComponentBundle<C>)
        requires
            old(self).wf(),
            components.wf(),
            id@ < usize::MAX,
            forall|i: int| 0 <= i < components@.len() ==> (#[trigger] components@[i]).0
                < usize::MAX,
        ensures
            final(self).wf(),
            final(self).despawns() == old(self).despawns(),
            final(self).spawn_count() == old(self).spawn_count(),
            final(self).res_queue() == old(self).res_queue(),
            final(self).spawn_payloads() == old(self).spawn_payloads(),
            final(self).has_modify(id@),
            forall|k: usize| #[trigger]
                components.has_key(k) ==> final(self).pending_of(id@).has_pending(k)
                    && final(self).pending_of(id@).pending_at(k) == ComponentChange::Insert(
                    k,
                    components.spec_get(k),
                ),
            forall|k: usize| #![trigger final(self).pending_of(id@).has_pending(k)]
                !components.has_key(k) ==> (final(self).pending_of(id@).has_pending(k) <==> old(
                    self,
                ).has_modify(id@) && old(self).pending_of(id@).has_pending(k)) && (old(
                    self,
                ).has_modify(id@) && old(self).pending_of(id@).has_pending(k)
                    ==> final(self).pending_of(id@).pending_at(k) == old(self).pending_of(
                    id@,
                ).pending_at(k)),
            forall|e: usize|
                e != id@ ==> (#[trigger] final(self).has_modify(e) <==> old(self).has_modify(e)),
            forall|e: usize|
                e != id@ && old(self).has_modify(e) ==> #[trigger] final(self).pending_of(e)
                    == old(self).pending_of(e),
    {
        let mut buffer = self.take_entity_buffer(id);
        buffer.insert(components);
        self.put_entity_buffer(id, buffer);
    }

    /// Queues removing the keys from existing entity `id`, coalescing with
    /// earlier intents for the same entity.
    pub fn remove(&mut self, id: EntityId, keys: &Vec<usize>)
        requires
            old(self).wf(),
            id@ < usize::MAX,
            forall|i: int| 0 <= i < keys@.len() ==> (#[trigger] keys@[i]) < usize::MAX,
        ensures
            final(self).wf(),
            final(self).despawns() == old(self).despawns(),
            final(self).spawn_count() == old(self).spawn_count(),
            final(self).res_queue() == old(self).res_queue(),
            final(self).spawn_payloads() == old(self).spawn_payloads(),
            final(self).has_modify(id@),
            forall|k: usize| #[trigger]
                keys@.contains(k) ==> final(self).pending_of(id@).has_pending(k)
                    && final(self).pending_of(id@).pending_at(k) == ComponentChange::<C>::Remove(
                    k,
                ),
            forall|k: usize| #![trigger final(self).pending_of(id@).has_pending(k)]
                !keys@.contains(k) ==> (final(self).pending_of(id@).has_pending(k) <==> old(
                    self,
                ).has_modify(id@) && old(self).pending_of(id@).has_pending(k)) && (old(
                    self,
                ).has_modify(id@) && old(self).pending_of(id@).has_pending(k)
                    ==> final(self).pending_of(id@).pending_at(k) == old(self).pending_of(
                    id@,
                ).pending_at(k)),
            forall|e: usize|
                e != id@ ==> (#[trigger] final(self).has_modify(e) <==> old(self).has_modify(e)),
            forall|e: usize|
                e != id@ && old(self).has_modify(e) ==> #[trigger] final(self).pending_of(e)
                    == old(self).pending_of(e),
    {
        let mut buffer = self.take_entity_buffer(id);
        buffer.remove(keys);
        self.put_entity_buffer(id, buffer);
    }

    /// Takes (or creates) the pending-modification buffer for `id`.
    fn take_entity_buffer(&mut self, id: EntityId) -> (r: ExistingEntityBuffer<C>)
        requires
            old(self).wf(),
            id@ < usize::MAX,
        ensures
            final(self).wf(),
            r.wf(),
            r.spec_id() == id@,
            old(self).has_modify(id@) ==> r == old(self).pending_of(id@),
            !old(self).has_modify(id@) ==> forall|k: usize| !(#[trigger] r.has_pending(k)),
            final(self).spawn_payloads() == old(self).spawn_payloads(),
            final(self).has_modify(id@),
            final(self).despawns() == old(self).despawns(),
            final(self).spawn_count() == old(self).spawn_count(),
            final(self).res_queue() == old(self).res_queue(),
            forall|e: usize|
                e != id@ ==> (#[trigger] final(self).has_modify(e) <==> old(self).has_modify(e)),
            forall|e: usize|
                e != id@ && old(self).has_modify(e) ==> #[trigger] final(self).pending_of(e)
                    == old(self).pending_of(e),
    {
        let ghost prev = *self;
        if self.existing_entities.contains(id.id()) {
            proof {
                prev.existing_entities.lemma_idx_of(id@);
            }
            let r = self.existing_entities.replace(id.id(), ExistingEntityBuffer::new(id));
            proof {
                self.lemma_entry_wf(prev.existing_entities, id@);
                assert(self.despawns() =~= prev.despawns());
                assert(r == prev.existing_entities.spec_get(id@));
                assert(prev.existing_entities@[prev.existing_entities.idx_of(id@)].1 == r);
            }
            r
        } else {
            self.existing_entities.insert(id.id(), ExistingEntityBuffer::new(id));
            proof {
                self.lemma_entry_wf(prev.existing_entities, id@);
                assert(self.despawns() =~= prev.despawns());
            }
            ExistingEntityBuffer::new(id)
        }
    }

    /// Puts the pending-modification buffer for `id` back in place.
    fn put_entity_buffer(&mut self, id: EntityId, buffer: ExistingEntityBuffer<C>)
        requires
            old(self).wf(),
            old(self).has_modify(id@),
            buffer.wf(),
            buffer.spec_id() == id@,
        ensures
            final(self).wf(),
            final(self).has_modify(id@),
            final(self).spawn_payloads() == old(self).spawn_payloads(),
            final(self).pending_of(id@) == buffer,
            final(self).despawns() == old(self).despawns(),
            final(self).spawn_count() == old(self).spawn_count(),
            final(self).res_queue() == old(self).res_queue(),
            forall|e: usize|
                e != id@ ==> (#[trigger] final(self).has_modify(e) <==> old(self).has_modify(e)),
            forall|e: usize|
                e != id@ && old(self).has_modify(e) ==> #[trigger] final(self).pending_of(e)
                    == old(self).pending_of(e),
    {
        let ghost prev = *self;
        proof {
            prev.existing_entities.lemma_idx_of(id@);
        }
        let _placeholder = self.existing_entities.replace(id.id(), buffer);
        proof {
            self.lemma_entry_wf(prev.existing_entities, id@);
            assert(self.despawns() =~= prev.despawns());
        }
    }

    /// Entries other than `id`'s come from the previous table, so their
    /// queued intents stay well formed.
    proof fn lemma_entry_wf(&self, prev: SparseSet<ExistingEntityBuffer<C>>, id: usize)
        requires
            prev.wf(),
            forall|i: int| 0 <= i < prev@.len() ==> (#[trigger] prev@[i]).1.wf(),
            self.existing_entities.wf(),
            (prev.has_key(id) && self.existing_entities@ == prev@.update(
                prev.idx_of(id),
                (id, self.existing_entities@[prev.idx_of(id)].1),
            )) || (!prev.has_key(id) && self.existing_entities@ == prev@.push(
                (id, self.existing_entities@[prev@.len() as int].1),
            )),
            forall|i: int|
                0 <= i < prev@.len() ==> (#[trigger] prev@[i]).1.spec_id() == prev@[i].0,
            (prev.has_key(id) ==> self.existing_entities@[prev.idx_of(id)].1.wf()
                && self.existing_entities@[prev.idx_of(id)].1.spec_id() == id),
            (!prev.has_key(id) ==> self.existing_entities@[prev@.len() as int].1.wf()
                && self.existing_entities@[prev@.len() as int].1.spec_id() == id),
        ensures
            forall|i: int|
                0 <= i < self.existing_entities@.len() ==> (
                #[trigger] self.existing_entities@[i]).1.wf()
                    && self.existing_entities@[i].1.spec_id() == self.existing_entities@[i].0,
    {
        if prev.has_key(id) {
            prev.lemma_idx_of(id);
            let at = prev.idx_of(id);
            assert forall|i: int| 0 <= i < self.existing_entities@.len() implies (
            #[trigger] self.existing_entities@[i]).1.wf() && self.existing_entities@[i].1.spec_id()
                == self.existing_entities@[i].0 by {
                if i != at {
                    assert(self.existing_entities@[i] == prev@[i]);
                }
            }
        } else {
            assert forall|i: int| 0 <= i < self.existing_entities@.len() implies (
            #[trigger] self.existing_entities@[i]).1.wf() && self.existing_entities@[i].1.spec_id()
                == self.existing_entities@[i].0 by {
                if i < prev@.len() {
                    assert(self.existing_entities@[i] == prev@[i]);
                }
            }
        }
    }

    /// Queues storing a resource under `key` at flush time.
    pub fn insert_resource(&mut self, key: usize, value: C)
        requires
            old(self).wf(),
            key < usize::MAX,
        ensures
            final(self).wf(),
            final(self).despawns() == old(self).despawns(),
            final(self).spawn_count() == old(self).spawn_count(),
            final(self).res_queue() == old(self).res_queue().push((key, Some(value))),
            final(self).spawn_payloads() == old(self).spawn_payloads(),
            forall|e: usize| #[trigger] final(self).has_modify(e) <==> old(self).has_modify(e),
            forall|e: usize|
                old(self).has_modify(e) ==> #[trigger] final(self).pending_of(e) == old(
                    self,
                ).pending_of(e),
    {
        self.resources.push((key, Some(value)));
        proof {
            assert(self.despawns() =~= old(self).despawns());
        }
    }

    /// Queues dropping the resource under `key` at flush time.
    pub fn remove_resource(&mut self, key: usize)
        requires
            old(self).wf(),
            key < usize::MAX,
        ensures
            final(self).wf(),
            final(self).despawns() == old(self).despawns(),
            final(self).spawn_count() == old(self).spawn_count(),
            final(self).res_queue() == old(self).res_queue().push((key, None)),
            final(self).spawn_payloads() == old(self).spawn_payloads(),
            forall|e: usize| #[trigger] final(self).has_modify(e) <==> old(self).has_modify(e),
            forall|e: usize|
                old(self).has_modify(e) ==> #[trigger] final(self).pending_of(e) == old(
                    self,
                ).pending_of(e),
    {
        self.resources.push((key, None));
        proof {
            assert(self.despawns() =~= old(self).despawns());
        }
    }

    /// Flushes the buffer: spawns in queue order, then despawns in queue
    /// order, then one coalesced modification per touched entity, then
    /// resource writes last-write-wins in queue order.  Every queued spawn
    /// payload comes up under its own fresh id, and unless the buffer also
    /// queued that id for despawning or modification, the new entity
    /// carries exactly the payload.  Every entity whose despawn was queued
    /// is dead afterwards — a later-queued modification of it was
    /// discarded when the despawn was queued, and a flush never resurrects
    /// it.  Every buffered, not-despawned live entity ends up carrying
    /// exactly its old row with the coalesced changes folded over it.
    pub fn apply_world(self, world: &mut World<C>)
        requires
            old(world).wf(),
            self.wf(),
            old(world).spec_next_id() + self.spawn_count() <= usize::MAX,
        ensures
            final(world).wf(),
            forall|i: int|
                0 <= i < self.despawns().len() ==> !final(world).live(
                    #[trigger] self.despawns()[i],
                ),
            exists|ids: Seq<usize>|
                ids.len() == self.spawn_payloads().len() && (forall|s1: int, s2: int|
                    0 <= s1 < s2 < ids.len() ==> ids[s1] != ids[s2]) && (forall|s: int|
                    #![trigger ids[s]]
                    0 <= s < ids.len() ==> !old(world).live(ids[s]) && (self.despawns().contains(
                        ids[s],
                    ) || self.has_modify(ids[s]) || (final(world).live(ids[s])
                        && final(world).rows_match(
                        ids[s],
                        self.spawn_payloads()[s].contents(),
                    )))),
            forall|e: usize| #[trigger]
                self.has_modify(e) && old(world).live(e) && !self.despawns().contains(e)
                    ==> final(world).live(e) && final(world).rows_match(
                    e,
                    World::row_after(old(world).row(e), self.pending_changes(e)),
                ),
            forall|k: usize| #![trigger final(world).res_has(k)]
                match Self::last_res_op(self.res_queue(), k) {
                    None => (final(world).res_has(k) <==> old(world).res_has(k)) && (old(
                        world,
                    ).res_has(k) ==> final(world).res(k) == old(world).res(k)),
                    Some(None) => !final(world).res_has(k),
                    Some(Some(v)) => final(world).res_has(k) && final(world).res(k) == v,
                },
    {
        let ghost prev0 = *old(world);
        let ghost me = self;
        let WorldBuffer { spawned_entities, despawned_entities, existing_entities, resources } =
            self;
        let ghost pv = me.spawn_payloads();
        let ghost sp0 = spawned_entities@;
        let ghost dv = me.despawns();
        let ghost mods0 = existing_entities@;
        let ghost rq = me.res_queue();
        proof {
            assert forall|i: int| 0 <= i < pv.len() implies #[trigger] pv[i] == sp0[i].bundle()
                by {}
            assert forall|e: usize| prev0.live(e) implies #[trigger] world.intact_from(
                prev0,
                e,
            ) by {
                assert forall|k: usize| #![trigger world.has(e, k)]
                    (world.has(e, k) <==> prev0.has(e, k)) && (prev0.has(e, k) ==> world.comp(
                        e,
                        k,
                    ) == prev0.comp(e, k)) by {}
            }
            // the coalesced batches are keyed uniquely and read back exactly
            assert forall|x1: int, x2: int|
                0 <= x1 < x2 < mods0.len() implies (#[trigger] mods0[x1]).0 != (
            #[trigger] mods0[x2]).0 by {
                if mods0[x1].0 == mods0[x2].0 {
                    me.existing_entities.lemma_key_unique(x1, x2);
                }
            }
            assert forall|x: int| 0 <= x < mods0.len() implies (#[trigger] mods0[x]).1.wf()
                && mods0[x].1.spec_id() == mods0[x].0 && me.has_modify(mods0[x].0)
                && me.pending_of(mods0[x].0) == mods0[x].1 by {
                assert(me.existing_entities@[x].0 == mods0[x].0);
                me.existing_entities.lemma_idx_of(mods0[x].0);
            }
        }
        let mut spawns = spawned_entities;
        let ghost mut ids: Seq<usize> = Seq::empty();
        let ghost mut t: int = 0;
        while spawns.len() > 0
            invariant
                prev0.wf(),
                world.wf(),
                0 <= t <= sp0.len(),
                spawns@ == sp0.skip(t),
                pv.len() == sp0.len(),
                forall|i: int| 0 <= i < pv.len() ==> #[trigger] pv[i] == sp0[i].bundle(),
                forall|i: int| 0 <= i < sp0.len() ==> (#[trigger] sp0[i]).wf(),
                world.spec_next_id() + sp0.len() - t <= usize::MAX,
                ids.len() == t,
                forall|s1: int, s2: int| 0 <= s1 < s2 < ids.len() ==> ids[s1] != ids[s2],
                forall|s: int| 0 <= s < ids.len() ==> !prev0.live(#[trigger] ids[s]),
                forall|s: int|
                    #![trigger ids[s]]
                    0 <= s < ids.len() ==> world.live(ids[s]) && world.rows_match(
                        ids[s],
                        pv[s].contents(),
                    ),
                forall|e: usize|
                    prev0.live(e) ==> #[trigger] world.intact_from(prev0, e),
                forall|k: usize| #![trigger world.res_has(k)]
                    (world.res_has(k) <==> prev0.res_has(k)) && (prev0.res_has(k) ==> world.res(
                        k,
                    ) == prev0.res(k)),
            decreases spawns@.len(),
        {
            let sb = spawns.remove(0);
            proof {
                assert(spawns@ =~= sp0.skip(t + 1));
                assert(sp0.skip(t)[0] == sp0[t]);
                assert(sb == sp0[t]);
            }
            let payload = sb.into_components();
            let ghost before = *world;
            let fresh = world.spawn(payload);
            proof {
                assert(payload == pv[t]);
                assert(world.rows_match(fresh@, pv[t].contents())) by {
                    assert forall|k: usize| #![trigger world.has(fresh@, k)]
                        (world.has(fresh@, k) <==> pv[t].contents().contains_key(k)) && (pv[
                        t].contents().contains_key(k) ==> world.comp(fresh@, k)
                        == pv[t].contents()[k]) by {
                        assert(world.has(fresh@, k) <==> payload.has_key(k));
                        if payload.has_key(k) {
                            assert(world.comp(fresh@, k) == payload.spec_get(k));
                        }
                    }
                }
                assert forall|s: int|
                    #![trigger ids[s]]
                    0 <= s < ids.len() implies world.live(ids[s]) && world.rows_match(
                    ids[s],
                    pv[s].contents(),
                ) && ids[s] != fresh@ by {
                    assert(before.live(ids[s]));
                    assert(!before.live(fresh@));
                    World::lemma_rows_match_step(before, *world, fresh@, ids[s], pv[s].contents());
                }
                assert forall|e: usize|
                    prev0.live(e) implies #[trigger] world.intact_from(prev0, e) by {
                    assert(before.intact_from(prev0, e));
                    assert(before.live(e));
                    assert(e != fresh@);
                    World::lemma_intact_step(prev0, before, *world, fresh@, e);
                }
                assert(!prev0.live(fresh@)) by {
                    if prev0.live(fresh@) {
                        assert(before.intact_from(prev0, fresh@));
                        assert(before.live(fresh@));
                    }
                }
                ids = ids.push(fresh@);
                t = t + 1;
            }
        }
        let mut despawns_v = despawned_entities;
        let ghost mut t2: int = 0;
        while despawns_v.len() > 0
            invariant
                prev0.wf(),
                world.wf(),
                0 <= t2 <= dv.len(),
                despawns_v@.len() == dv.len() - t2,
                forall|x: int| 0 <= x < despawns_v@.len() ==> (#[trigger] despawns_v@[x])@ == dv[
                    t2 + x],
                forall|x: int| 0 <= x < t2 ==> !world.live(#[trigger] dv[x]),
                ids.len() == pv.len(),
                forall|s1: int, s2: int| 0 <= s1 < s2 < ids.len() ==> ids[s1] != ids[s2],
                forall|s: int| 0 <= s < ids.len() ==> !prev0.live(#[trigger] ids[s]),
                forall|s: int|
                    #![trigger ids[s]]
                    0 <= s < ids.len() ==> dv.contains(ids[s]) || (world.live(ids[s])
                        && world.rows_match(ids[s], pv[s].contents())),
                forall|e: usize|
                    prev0.live(e) && !dv.contains(e) ==> #[trigger] world.intact_from(prev0, e),
                forall|k: usize| #![trigger world.res_has(k)]
                    (world.res_has(k) <==> prev0.res_has(k)) && (prev0.res_has(k) ==> world.res(
                        k,
                    ) == prev0.res(k)),
            decreases despawns_v@.len(),
        {
            let id = despawns_v.remove(0);
            let ghost before = *world;
            world.despawn(id);
            proof {
                assert(id@ == dv[t2]);
                assert(dv.contains(dv[t2]));
                assert forall|x: int| 0 <= x < t2 + 1 implies !world.live(#[trigger] dv[x]) by {
                    if x < t2 {
                        assert(!before.live(dv[x]));
                        if dv[x] != id@ {
                            assert(world.live(dv[x]) <==> before.live(dv[x]));
                        }
                    }
                }
                assert forall|s: int|
                    #![trigger ids[s]]
                    0 <= s < ids.len() implies dv.contains(ids[s]) || (world.live(ids[s])
                    && world.rows_match(ids[s], pv[s].contents())) by {
                    if !dv.contains(ids[s]) {
                        assert(ids[s] != id@);
                        World::lemma_rows_match_step(
                            before,
                            *world,
                            id@,
                            ids[s],
                            pv[s].contents(),
                        );
                    }
                }
                assert forall|e: usize|
                    prev0.live(e) && !dv.contains(e) implies #[trigger] world.intact_from(
                    prev0,
                    e,
                ) by {
                    assert(before.intact_from(prev0, e));
                    assert(e != id@);
                    World::lemma_intact_step(prev0, before, *world, id@, e);
                }
                t2 = t2 + 1;
            }
        }
        let mut modifies = existing_entities.into_vec();
        let ghost mut t3: int = 0;
        while modifies.len() > 0
            invariant
                prev0.wf(),
                world.wf(),
                0 <= t3 <= mods0.len(),
                modifies@ == mods0.skip(t3),
                forall|x1: int, x2: int|
                    0 <= x1 < x2 < mods0.len() ==> (#[trigger] mods0[x1]).0 != (
                    #[trigger] mods0[x2]).0,
                forall|x: int|
                    0 <= x < mods0.len() ==> (#[trigger] mods0[x]).1.wf() && mods0[x].1.spec_id()
                        == mods0[x].0 && me.has_modify(mods0[x].0) && me.pending_of(mods0[x].0)
                        == mods0[x].1,
                forall|x: int| 0 <= x < dv.len() ==> !world.live(#[trigger] dv[x]),
                ids.len() == pv.len(),
                forall|s1: int, s2: int| 0 <= s1 < s2 < ids.len() ==> ids[s1] != ids[s2],
                forall|s: int| 0 <= s < ids.len() ==> !prev0.live(#[trigger] ids[s]),
                forall|s: int|
                    #![trigger ids[s]]
                    0 <= s < ids.len() ==> dv.contains(ids[s]) || me.has_modify(ids[s]) || (
                    world.live(ids[s]) && world.rows_match(ids[s], pv[s].contents())),
                forall|x: int|
                    #![trigger mods0[x]]
                    0 <= x < t3 && prev0.live(mods0[x].0) && !dv.contains(mods0[x].0)
                        ==> world.live(mods0[x].0) && world.rows_match(
                        mods0[x].0,
                        World::row_after(prev0.row(mods0[x].0), me.pending_changes(mods0[x].0)),
                    ),
                forall|x: int|
                    #![trigger mods0[x]]
                    t3 <= x < mods0.len() && prev0.live(mods0[x].0) && !dv.contains(mods0[x].0)
                        ==> world.intact_from(prev0, mods0[x].0),
                forall|k: usize| #![trigger world.res_has(k)]
                    (world.res_has(k) <==> prev0.res_has(k)) && (prev0.res_has(k) ==> world.res(
                        k,
                    ) == prev0.res(k)),
            decreases modifies@.len(),
        {
            let entry = modifies.remove(0);
            proof {
                assert(modifies@ =~= mods0.skip(t3 + 1));
                assert(mods0.skip(t3)[0] == mods0[t3]);
                assert(entry == mods0[t3]);
            }
            let eb = entry.1;
            let target = eb.id();
            let updates = eb.into_changes();
            let ghost before = *world;
            proof {
                assert(eb == mods0[t3].1);
                assert(me.pending_of(entry.0) == eb);
                assert(updates@ =~= me.pending_changes(entry.0));
                assert(eb.spec_id() == entry.0);
                assert(target@ == entry.0);
                assert forall|i: int| 0 <= i < updates@.len() implies (
                #[trigger] updates@[i]).key() < usize::MAX by {}
                if prev0.live(entry.0) && !dv.contains(entry.0) {
                    assert(before.intact_from(prev0, entry.0));
                    assert(before.row(entry.0) =~= prev0.row(entry.0)) by {
                        assert forall|k: usize|
                            #![trigger prev0.has(entry.0, k)]
                            (before.has(entry.0, k) <==> prev0.has(entry.0, k)) && (prev0.has(
                                entry.0,
                                k,
                            ) ==> before.comp(entry.0, k) == prev0.comp(entry.0, k)) by {}
                    }
                }
            }
            world.modify(target, updates);
            proof {
                assert forall|x: int| 0 <= x < dv.len() implies !world.live(
                    #[trigger] dv[x],
                ) by {
                    assert(world.live(dv[x]) <==> before.live(dv[x]));
                }
                assert forall|x: int|
                    #![trigger mods0[x]]
                    0 <= x < t3 + 1 && prev0.live(mods0[x].0) && !dv.contains(mods0[x].0)
                        implies world.live(mods0[x].0) && world.rows_match(
                    mods0[x].0,
                    World::row_after(prev0.row(mods0[x].0), me.pending_changes(mods0[x].0)),
                ) by {
                    if x == t3 {
                        assert(before.live(entry.0));
                        assert(world.live(entry.0));
                        assert forall|k: usize| #![trigger world.has(entry.0, k)]
                            (world.has(entry.0, k) <==> World::row_after(
                                prev0.row(entry.0),
                                me.pending_changes(entry.0),
                            ).contains_key(k)) && (World::row_after(
                                prev0.row(entry.0),
                                me.pending_changes(entry.0),
                            ).contains_key(k) ==> world.comp(entry.0, k) == World::row_after(
                                prev0.row(entry.0),
                                me.pending_changes(entry.0),
                            )[k]) by {
                            assert(world.has(entry.0, k) <==> World::row_after(
                                before.row(entry.0),
                                updates@,
                            ).contains_key(k));
                            if world.has(entry.0, k) {
                                assert(world.comp(entry.0, k) == World::row_after(
                                    before.row(entry.0),
                                    updates@,
                                )[k]);
                            }
                        }
                    } else {
                        assert(mods0[x].0 != entry.0);
                        assert(before.live(mods0[x].0) && before.rows_match(
                            mods0[x].0,
                            World::row_after(
                                prev0.row(mods0[x].0),
                                me.pending_changes(mods0[x].0),
                            ),
                        ));
                        World::lemma_rows_match_step(
                            before,
                            *world,
                            entry.0,
                            mods0[x].0,
                            World::row_after(
                                prev0.row(mods0[x].0),
                                me.pending_changes(mods0[x].0),
                            ),
                        );
                    }
                }
                assert forall|x: int|
                    #![trigger mods0[x]]
                    t3 + 1 <= x < mods0.len() && prev0.live(mods0[x].0) && !dv.contains(
                        mods0[x].0,
                    ) implies world.intact_from(prev0, mods0[x].0) by {
                    assert(mods0[x].0 != entry.0);
                    assert(before.intact_from(prev0, mods0[x].0));
                    World::lemma_intact_step(prev0, before, *world, entry.0, mods0[x].0);
                }
                assert forall|s: int|
                    #![trigger ids[s]]
                    0 <= s < ids.len() implies dv.contains(ids[s]) || me.has_modify(ids[s]) || (
                world.live(ids[s]) && world.rows_match(ids[s], pv[s].contents())) by {
                    if !dv.contains(ids[s]) && !me.has_modify(ids[s]) {
                        assert(ids[s] != entry.0) by {
                            assert(me.has_modify(mods0[t3].0));
                        }
                        World::lemma_rows_match_step(
                            before,
                            *world,
                            entry.0,
                            ids[s],
                            pv[s].contents(),
                        );
                    }
                }
                t3 = t3 + 1;
            }
        }
        let mut res = resources;
        let ghost mut rt: int = 0;
        proof {
            assert(rq.take(0) =~= Seq::<(usize, Option<C>)>::empty());
        }
        while res.len() > 0
            invariant
                world.wf(),
                0 <= rt <= rq.len(),
                res@ == rq.skip(rt),
                forall|x: int| 0 <= x < rq.len() ==> (#[trigger] rq[x]).0 < usize::MAX,
                forall|x: int| 0 <= x < dv.len() ==> !world.live(#[trigger] dv[x]),
                ids.len() == pv.len(),
                forall|s1: int, s2: int| 0 <= s1 < s2 < ids.len() ==> ids[s1] != ids[s2],
                forall|s: int| 0 <= s < ids.len() ==> !prev0.live(#[trigger] ids[s]),
                forall|s: int|
                    #![trigger ids[s]]
                    0 <= s < ids.len() ==> dv.contains(ids[s]) || me.has_modify(ids[s]) || (
                    world.live(ids[s]) && world.rows_match(ids[s], pv[s].contents())),
                forall|x: int|
                    #![trigger mods0[x]]
                    0 <= x < mods0.len() && prev0.live(mods0[x].0) && !dv.contains(mods0[x].0)
                        ==> world.live(mods0[x].0) && world.rows_match(
                        mods0[x].0,
                        World::row_after(prev0.row(mods0[x].0), me.pending_changes(mods0[x].0)),
                    ),
                forall|k: usize| #![trigger world.res_has(k)]
                    match Self::last_res_op(rq.take(rt), k) {
                        None => (world.res_has(k) <==> prev0.res_has(k)) && (prev0.res_has(k)
                            ==> world.res(k) == prev0.res(k)),
                        Some(None) => !world.res_has(k),
                        Some(Some(v)) => world.res_has(k) && world.res(k) == v,
                    },
            decreases res@.len(),
        {
            let entry = res.remove(0);
            let ghost before = *world;
            proof {
                assert(res@ =~= rq.skip(rt + 1));
                assert(rq.skip(rt)[0] == rq[rt]);
                assert(entry == rq[rt]);
            }
            match entry.1 {
                Some(value) => {
                    world.insert_resource(entry.0, value);
                },
                None => {
                    world.remove_resource(entry.0);
                },
            }
            proof {
                assert forall|x: int| 0 <= x < dv.len() implies !world.live(
                    #[trigger] dv[x],
                ) by {
                    assert(world.live(dv[x]) <==> before.live(dv[x]));
                }
                assert forall|s: int|
                    #![trigger ids[s]]
                    0 <= s < ids.len() implies dv.contains(ids[s]) || me.has_modify(ids[s]) || (
                world.live(ids[s]) && world.rows_match(ids[s], pv[s].contents())) by {
                    if !dv.contains(ids[s]) && !me.has_modify(ids[s]) {
                        let e = ids[s];
                        let m = pv[s].contents();
                        assert(before.live(e));
                        assert(before.rows_match(e, m));
                        assert(world.live(e));
                        assert forall|k: usize| #![trigger world.has(e, k)]
                            (world.has(e, k) <==> m.contains_key(k)) && (m.contains_key(k)
                                ==> world.comp(e, k) == m[k]) by {
                            assert(world.has(e, k) <==> before.has(e, k));
                            if before.has(e, k) {
                                assert(world.comp(e, k) == before.comp(e, k));
                            }
                            assert(before.has(e, k) <==> m.contains_key(k));
                            if m.contains_key(k) {
                                assert(before.comp(e, k) == m[k]);
                            }
                        }
                        assert(forall|k: usize| #![trigger world.has(e, k)]
                            (world.has(e, k) <==> m.contains_key(k)) && (m.contains_key(k)
                                ==> world.comp(e, k) == m[k]));
                        assert(world.rows_match(e, m));
                    }
                }
                assert forall|x: int|
                    #![trigger mods0[x]]
                    0 <= x < mods0.len() && prev0.live(mods0[x].0) && !dv.contains(mods0[x].0)
                        implies world.live(mods0[x].0) && world.rows_match(
                    mods0[x].0,
                    World::row_after(prev0.row(mods0[x].0), me.pending_changes(mods0[x].0)),
                ) by {
                    let e = mods0[x].0;
                    let m = World::row_after(prev0.row(e), me.pending_changes(e));
                    assert(before.live(e) && before.rows_match(e, m));
                    assert(world.live(e));
                    assert forall|k: usize| #![trigger world.has(e, k)]
                        (world.has(e, k) <==> m.contains_key(k)) && (m.contains_key(k)
                            ==> world.comp(e, k) == m[k]) by {
                        assert(world.has(e, k) <==> before.has(e, k));
                        if before.has(e, k) {
                            assert(world.comp(e, k) == before.comp(e, k));
                        }
                        assert(before.has(e, k) <==> m.contains_key(k));
                        if m.contains_key(k) {
                            assert(before.comp(e, k) == m[k]);
                        }
                    }
                    assert(world.rows_match(e, m));
                }
                assert(rq.take(rt + 1).drop_last() =~= rq.take(rt));
                assert(rq.take(rt + 1).last() == rq[rt]);
                assert forall|k: usize| #![trigger world.res_has(k)]
                    match Self::last_res_op(rq.take(rt + 1), k) {
                        None => (world.res_has(k) <==> prev0.res_has(k)) && (prev0.res_has(k)
                            ==> world.res(k) == prev0.res(k)),
                        Some(None) => !world.res_has(k),
                        Some(Some(v)) => world.res_has(k) && world.res(k) == v,
                    } by {
                    if k != rq[rt].0 {
                        assert(world.res_has(k) <==> before.res_has(k));
                        if before.res_has(k) {
                            assert(world.res(k) == before.res(k));
                        }
                    }
                }
                rt = rt + 1;
            }
        }
        proof {
            assert(rq.take(rq.len() as int) =~= rq);
            // the spawn witness
            assert(ids.len() == me.spawn_payloads().len());
            assert forall|s: int|
                #![trigger ids[s]]
                0 <= s < ids.len() implies !prev0.live(ids[s]) && (dv.contains(ids[s])
                || me.has_modify(ids[s]) || (world.live(ids[s]) && world.rows_match(
                ids[s],
                me.spawn_payloads()[s].contents(),
            ))) by {}
            // the modify effect
            assert forall|e: usize| #[trigger]
                me.has_modify(e) && prev0.live(e) && !dv.contains(e) implies world.live(e)
                && world.rows_match(
                e,
                World::row_after(prev0.row(e), me.pending_changes(e)),
            ) by {
                let x = choose|x: int|
                    0 <= x < me.existing_entities@.len() && (
                    #[trigger] me.existing_entities@[x]).0 == e;
                assert(mods0[x].0 == e);
            }
        }
    }
}

} // verus!
