//! The world: id allocation, the archetype registry, resources, change
//! state, and the single mutable entry point for structural edits.
//!
//! Every mutation funnels through `spawn`, `despawn` and `modify`; the
//! change-detection subsystem is fed exclusively from these entry points,
//! so its records and the storage can never disagree.  A despawned
//! entity's id returns to the free list only when no pending change record
//! references it (a still-referenced id is simply never recycled), so a
//! future reuse can never collide with an unobserved final state.

use vstd::prelude::*;

verus! {

use crate::archetypes::Archetypes;
use crate::buffer::WorldBuffer;
use crate::changes::{ChangeDetection, ChangeKind, ChangeRecord, EntitySnapshot, QueryChanged};
use crate::component::{ComponentBundle, ComponentChange};
use crate::entities::{Entities, EntityId};
use crate::query::Query;
use crate::sparse_set::SparseSet;

broadcast use vstd::seq_lib::group_seq_properties;

pub struct World<C> {
    entities: Entities,
    archetypes: Archetypes<C>,
    resources: SparseSet<C>,
    changes: ChangeDetection<C>,
    despawned: Vec<usize>,
}

impl<C> World<C> {
    /// Whether entity `e` currently exists.
    pub closed spec fn live(&self, e: usize) -> bool {
        self.archetypes.spec_has_entity(e)
    }

    /// Whether entity `e` currently carries a component under type key `k`.
    pub closed spec fn has(&self, e: usize, k: usize) -> bool {
        self.live(e) && self.archetypes.arch(self.archetypes.arch_of(e)).has_type(k)
    }

    /// The component entity `e` carries under `k` (meaningful when `has`).
    pub closed spec fn comp(&self, e: usize, k: usize) -> C {
        self.archetypes.arch(self.archetypes.arch_of(e)).comp(e, k)
    }

    /// Entity `e` is alive and carries exactly the components it carried
    /// in `prev`.
    pub open spec fn intact_from(&self, prev: Self, e: usize) -> bool {
        self.live(e) && (forall|k: usize| #![trigger self.has(e, k)]
            (self.has(e, k) <==> prev.has(e, k)) && (prev.has(e, k) ==> self.comp(e, k)
                == prev.comp(e, k)))
    }

    /// Entity `e`'s components read exactly as the map `m`.
    pub open spec fn rows_match(&self, e: usize, m: Map<usize, C>) -> bool {
        forall|k: usize| #![trigger self.has(e, k)]
            (self.has(e, k) <==> m.contains_key(k)) && (m.contains_key(k) ==> self.comp(e, k)
                == m[k])
    }

    /// Entity `e` is alive and carries exactly the payload's components.
    pub open spec fn carries_exactly(&self, e: usize, payload: ComponentBundle<C>) -> bool {
        self.live(e) && self.rows_match(e, payload.contents())
    }

    /// A step that only edited `touched` keeps any other entity's row
    /// reading as the same map, and keeps it alive.
    pub proof fn lemma_rows_match_step(
        before: Self,
        after: Self,
        touched: usize,
        e: usize,
        m: Map<usize, C>,
    )
        requires
            before.live(e),
            before.rows_match(e, m),
            e != touched,
            after.others_unchanged(before, touched),
            forall|e2: usize| e2 != touched ==> (#[trigger] after.live(e2) <==> before.live(e2)),
        ensures
            after.live(e),
            after.rows_match(e, m),
    {
        assert(after.live(e));
        assert forall|k: usize| #![trigger after.has(e, k)]
            (after.has(e, k) <==> m.contains_key(k)) && (m.contains_key(k) ==> after.comp(e, k)
                == m[k]) by {
            assert((after.has(e, k) <==> before.has(e, k)) && (before.has(e, k) ==> after.comp(
                e,
                k,
            ) == before.comp(e, k)));
            assert((before.has(e, k) <==> m.contains_key(k)) && (m.contains_key(k)
                ==> before.comp(e, k) == m[k]));
        }
    }

    /// An intact entity's row reads exactly as its previous row map.
    pub proof fn lemma_intact_rows(prev: Self, cur: Self, e: usize)
        requires
            cur.intact_from(prev, e),
        ensures
            cur.live(e),
            cur.rows_match(e, prev.row(e)),
    {
        assert forall|k: usize| #![trigger cur.has(e, k)]
            (cur.has(e, k) <==> prev.row(e).contains_key(k)) && (prev.row(e).contains_key(k)
                ==> cur.comp(e, k) == prev.row(e)[k]) by {
            assert(cur.intact_from(prev, e));
            assert(cur.has(e, k) <==> prev.has(e, k));
            if prev.has(e, k) {
                assert(cur.comp(e, k) == prev.comp(e, k));
            }
            assert(prev.row(e).contains_key(k) <==> prev.has(e, k));
            if prev.has(e, k) {
                assert(prev.row(e)[k] == prev.comp(e, k));
            }
        }
    }

    /// A step that only edited `touched` keeps any other entity intact.
    pub proof fn lemma_intact_step(
        prev: Self,
        before: Self,
        after: Self,
        touched: usize,
        e: usize,
    )
        requires
            before.intact_from(prev, e),
            e != touched,
            after.others_unchanged(before, touched),
            forall|e2: usize| e2 != touched ==> (#[trigger] after.live(e2) <==> before.live(e2)),
        ensures
            after.intact_from(prev, e),
    {
        assert(before.live(e));
        assert(after.live(e));
        assert forall|k: usize| #![trigger after.has(e, k)]
            (after.has(e, k) <==> prev.has(e, k)) && (prev.has(e, k) ==> after.comp(e, k)
                == prev.comp(e, k)) by {
            assert((after.has(e, k) <==> before.has(e, k)) && (before.has(e, k) ==> after.comp(
                e,
                k,
            ) == before.comp(e, k)));
            assert((before.has(e, k) <==> prev.has(e, k)) && (prev.has(e, k) ==> before.comp(
                e,
                k,
            ) == prev.comp(e, k)));
        }
        assert(after.intact_from(prev, e));
    }

    /// Every entity other than `id` keeps exactly its components when
    /// `self` is reached from `prev`.
    pub open spec fn others_unchanged(&self, prev: Self, id: usize) -> bool {
        forall|e: usize, k: usize| #![trigger self.has(e, k)]
            e != id ==> (self.has(e, k) <==> prev.has(e, k)) && (prev.has(e, k) ==> self.comp(
                e,
                k,
            ) == prev.comp(e, k))
    }

    /// The row of components entity `e` carries, as a map from type key.
    pub open spec fn row(&self, e: usize) -> Map<usize, C> {
        Map::new(|k: usize| self.has(e, k), |k: usize| self.comp(e, k))
    }

    /// Whether a resource is stored under type key `k`.
    pub closed spec fn res_has(&self, k: usize) -> bool {
        self.resources.has_key(k)
    }

    /// The resource stored under `k` (meaningful when `res_has`).
    pub closed spec fn res(&self, k: usize) -> C {
        self.resources.spec_get(k)
    }

    /// Whether changes of type key `k` are being recorded.
    pub closed spec fn is_tracked(&self, k: usize) -> bool {
        self.changes.is_tracked(k)
    }

    /// What the current generation records for `e` under `k`.
    pub closed spec fn delta(&self, k: usize, e: usize) -> Option<ChangeKind<C>> {
        self.changes.delta(k, e)
    }

    /// Whether any pending change record still mentions entity `e`.  A
    /// referenced id is withheld from reuse, so a spawned id never collides
    /// with an unobserved final state.
    pub closed spec fn referenced(&self, e: usize) -> bool {
        self.changes.references(e)
    }

    /// The registry-facing parts of the world invariant.
    pub closed spec fn storage_wf(&self) -> bool {
        &&& self.archetypes.wf()
        &&& self.archetypes.arch_count() <= usize::MAX
        &&& self.resources.wf()
        &&& self.changes.wf()
        &&& forall|a: int, j: int|
            #![trigger self.archetypes.arch(a).sig()[j]]
            0 <= a < self.archetypes.arch_count() && 0 <= j < self.archetypes.arch(a).sig().len()
                ==> self.archetypes.arch(a).sig()[j] < usize::MAX
    }

    /// The id-allocation parts of the world invariant: ids below the
    /// high-water mark; free and withheld ids dead, distinct and disjoint;
    /// withheld ids still referenced by some pending record; records only
    /// ever mention ids that were handed out.
    pub closed spec fn ids_wf(&self) -> bool {
        &&& forall|e: usize| #[trigger] self.live(e) ==> e < self.entities.next()
        &&& forall|i: int|
            0 <= i < self.entities.free().len() ==> (#[trigger] self.entities.free()[i])
                < self.entities.next() && !self.live(self.entities.free()[i])
                && !self.changes.references(self.entities.free()[i])
                && !self.despawned@.contains(self.entities.free()[i])
        &&& forall|i: int, j: int|
            0 <= i < j < self.entities.free().len() ==> self.entities.free()[i]
                != self.entities.free()[j]
        &&& forall|i: int|
            0 <= i < self.despawned@.len() ==> (#[trigger] self.despawned@[i])
                < self.entities.next() && !self.live(self.despawned@[i])
        &&& forall|i: int, j: int|
            0 <= i < j < self.despawned@.len() ==> self.despawned@[i] != self.despawned@[j]
        &&& forall|e: usize| #[trigger] self.changes.references(e) ==> e < self.entities.next()
    }

    /// The change/storage coherence: a record never claims an addition or
    /// modification of a component the entity lacks, nor a removal of one
    /// it still carries.
    pub open spec fn deltas_wf(&self) -> bool {
        forall|k: usize, e: usize| #![trigger self.delta(k, e)]
            match self.delta(k, e) {
                Some(ChangeKind::Added) => self.has(e, k),
                Some(ChangeKind::Modified(_)) => self.has(e, k),
                Some(ChangeKind::Removed(_)) => !self.has(e, k),
                None => true,
            }
    }

    /// The world invariant.
    pub open spec fn wf(&self) -> bool {
        self.storage_wf() && self.ids_wf() && self.deltas_wf()
    }

    pub fn new() -> (r: Self)
        ensures
            r.wf(),
            r.spec_next_id() == 0,
            r.can_spawn(),
            forall|e: usize| !(#[trigger] r.live(e)),
            forall|k: usize| !(#[trigger] r.res_has(k)),
            forall|k: usize| !(#[trigger] r.is_tracked(k)),
            forall|e: usize| !(#[trigger] r.referenced(e)),
    {
        World {
            entities: Entities::new(),
            archetypes: Archetypes::new(),
            resources: SparseSet::new(),
            changes: ChangeDetection::new(),
            despawned: Vec::new(),
        }
    }

    /// Whether `id` currently carries a component under `key`.
    pub fn has_component(&self, id: EntityId, key: usize) -> (r: bool)
        requires
            self.wf(),
        ensures
            r == self.has(id@, key),
    {
        match self.archetypes.entity_archetype(id) {
            Some(archetype) => {
                proof {
                    self.archetypes.lemma_arch_of(id@);
                    assert(archetype.wf());
                }
                archetype.has_component(key)
            },
            None => false,
        }
    }

    /// The component `id` carries under `key`, if any.  Absence is
    /// steady-state, not an error.
    pub fn get_component(&self, id: EntityId, key: usize) -> (r: Option<&C>)
        requires
            self.wf(),
        ensures
            match r {
                Some(c) => self.has(id@, key) && *c == self.comp(id@, key),
                None => !self.has(id@, key),
            },
    {
        match self.archetypes.entity_archetype(id) {
            Some(archetype) => {
                proof {
                    self.archetypes.lemma_arch_of(id@);
                    assert(archetype.wf());
                    assert(archetype.has_entity(id@));
                }
                archetype.get_component(id, key)
            },
            None => None,
        }
    }

    /// Creates a new entity carrying exactly the bundle, under a fresh id
    /// (recycled only once no pending change record mentions it).
    pub fn spawn(&mut self, bundle: ComponentBundle<C>) -> (r: EntityId)
        requires
            old(self).wf(),
            bundle.wf(),
            forall|i: int| 0 <= i < bundle@.len() ==> (#[trigger] bundle@[i]).0 < usize::MAX,
            old(self).can_spawn(),
        ensures
            final(self).wf(),
            final(self).spec_next_id() <= old(self).spec_next_id() + 1,
            !old(self).live(r@),
            !old(self).referenced(r@),
            final(self).live(r@),
            forall|k: usize| #[trigger] final(self).has(r@, k) <==> bundle.has_key(k),
            forall|k: usize| #[trigger]
                bundle.has_key(k) ==> final(self).comp(r@, k) == bundle.spec_get(k),
            forall|e: usize| e != r@ ==> (#[trigger] final(self).live(e) <==> old(self).live(e)),
            final(self).others_unchanged(*old(self), r@),
            forall|k: usize| #[trigger] final(self).is_tracked(k) <==> old(self).is_tracked(k),
            forall|k: usize, e: usize| #[trigger]
                final(self).delta(k, e) == old(self).delta(k, e),
            forall|k: usize| #[trigger] final(self).res_has(k) <==> old(self).res_has(k),
            forall|k: usize| old(self).res_has(k) ==> #[trigger] final(self).res(k) == old(
                self,
            ).res(k),
    {
        let ghost prev = *old(self);
        let id = self.entities.spawn();
        proof {
            if prev.entities.free().len() > 0 {
                assert(prev.entities.free()[prev.entities.free().len() - 1] == id);
            }
            assert(!prev.live(id));
            assert(!prev.changes.references(id));
            assert(id < usize::MAX);
        }
        let eid = EntityId::new(id);
        let a = self.archetypes.component_archetype(&bundle);
        proof {
            assert forall|e: usize| #[trigger]
                self.archetypes.spec_has_entity(e) <==> prev.archetypes.spec_has_entity(e) by {
                if self.archetypes.spec_has_entity(e) {
                    let b = choose|b: int|
                        0 <= b < self.archetypes.arch_count() && (#[trigger] self.archetypes.arch(
                            b,
                        )).has_entity(e);
                    if b < prev.archetypes.arch_count() {
                        assert(prev.archetypes.arch(b).has_entity(e));
                    } else {
                        assert(self.archetypes.arch(b).members() == Seq::<usize>::empty());
                    }
                }
                if prev.archetypes.spec_has_entity(e) {
                    let b = choose|b: int|
                        0 <= b < prev.archetypes.arch_count() && (#[trigger] prev.archetypes.arch(
                            b,
                        )).has_entity(e);
                    assert(self.archetypes.arch(b) == prev.archetypes.arch(b));
                    assert(self.archetypes.arch(b).has_entity(e));
                }
            }
            assert(!self.archetypes.spec_has_entity(id));
        }
        let ghost routed = self.archetypes;
        self.archetypes.insert_at(a, eid, bundle);
        proof {
            assert forall|e: usize, k: usize| #![trigger self.has(e, k)]
                e != id implies (self.has(e, k) <==> prev.has(e, k)) && (prev.has(e, k)
                ==> self.comp(e, k) == prev.comp(e, k)) by {
                assert(self.archetypes.spec_has_entity(e) <==> routed.spec_has_entity(e) || e
                    == id);
                assert(routed.spec_has_entity(e) <==> prev.archetypes.spec_has_entity(e));
                if prev.live(e) {
                    prev.archetypes.lemma_arch_of(e);
                    let b = prev.archetypes.arch_of(e);
                    assert(routed.arch(b) == prev.archetypes.arch(b));
                    assert(self.archetypes.spec_has_entity(e));
                    self.archetypes.lemma_arch_of(e);
                    let b2 = self.archetypes.arch_of(e);
                    if b2 != a {
                        assert(self.archetypes.arch(b2) == routed.arch(b2));
                        assert(prev.archetypes.arch(b2).has_entity(e));
                        assert(b2 == b);
                    } else if b != a {
                        assert(self.archetypes.arch(b) == routed.arch(b));
                        assert(self.archetypes.arch(b).has_entity(e));
                        assert(b == b2);
                    }
                    assert(b2 == b);
                    assert(self.archetypes.arch(b).sig() == prev.archetypes.arch(b).sig()) by {
                        if b == a {
                            assert(self.archetypes.arch(a as int).sig() == routed.arch(
                                a as int,
                            ).sig());
                        } else {
                            assert(self.archetypes.arch(b) == routed.arch(b));
                        }
                    }
                    if prev.has(e, k) {
                        if b == a {
                            assert(self.archetypes.arch(a as int).others_unchanged(
                                routed.arch(a as int),
                                id,
                            ));
                            assert(routed.arch(b).has_entity(e) && routed.arch(b).has_type(k));
                            assert(self.archetypes.arch(b).comp(e, k) == routed.arch(b).comp(
                                e,
                                k,
                            ));
                        } else {
                            assert(self.archetypes.arch(b) == prev.archetypes.arch(b));
                        }
                    }
                }
            }
            assert forall|a2: int, j: int|
                #![trigger self.archetypes.arch(a2).sig()[j]]
                0 <= a2 < self.archetypes.arch_count() && 0 <= j < self.archetypes.arch(
                    a2,
                ).sig().len() implies self.archetypes.arch(a2).sig()[j] < usize::MAX by {
                let kj = self.archetypes.arch(a2).sig()[j];
                assert(self.archetypes.arch(a2).sig().contains(kj));
                assert(self.archetypes.arch(a2).sig() == routed.arch(a2).sig());
                if a2 < prev.archetypes.arch_count() {
                    assert(routed.arch(a2) == prev.archetypes.arch(a2));
                } else {
                    assert(routed.arch(a2).has_type(kj) <==> bundle.has_key(kj));
                    let s = choose|s: int|
                        0 <= s < bundle@.len() && (#[trigger] bundle@[s]).0 == kj;
                }
            }
            assert forall|k: usize| #[trigger] self.has(id, k) <==> bundle.has_key(k) by {
                assert(self.archetypes.arch_of(id) == a as int);
                assert(self.archetypes.arch(a as int).sig() == routed.arch(a as int).sig());
                assert(routed.arch(a as int).has_type(k) <==> bundle.has_key(k));
            }
            assert forall|k: usize| #[trigger]
                bundle.has_key(k) implies self.comp(id, k) == bundle.spec_get(k) by {
                assert(self.archetypes.arch_of(id) == a as int);
                assert(self.archetypes.arch(a as int).comp(id, k) == bundle.spec_get(k));
            }
            assert(self.others_unchanged(prev, id));
        }
        // reading the length records that the archetype count fits in a machine word
        let _total = self.archetypes.len();
        proof {
            self.lemma_spawn_post(prev, id, a as int);
        }
        eid
    }

    /// Whether the allocator can mint one more id.
    pub open spec fn can_spawn(&self) -> bool {
        self.spec_free_count() > 0 || self.spec_next_id() < usize::MAX
    }

    /// How many ids wait on the free list.
    pub closed spec fn spec_free_count(&self) -> int {
        self.entities.free().len() as int
    }

    /// The allocator's high-water mark.
    pub closed spec fn spec_next_id(&self) -> usize {
        self.entities.next()
    }

    /// Ties the state after routing and inserting a fresh entity back to
    /// the spawn contract.
    proof fn lemma_spawn_post(&self, prev: Self, id: usize, a: int)
        requires
            prev.wf(),
            self.archetypes.wf(),
            self.resources == prev.resources,
            self.changes == prev.changes,
            self.despawned == prev.despawned,
            // allocator evolution
            (prev.entities.free().len() > 0 && id == prev.entities.free().last()
                && self.entities.free() == prev.entities.free().drop_last()
                && self.entities.next() == prev.entities.next()) || (prev.entities.free().len()
                == 0 && id == prev.entities.next() && self.entities.next() == prev.entities.next()
                + 1 && self.entities.free() == prev.entities.free()),
            !prev.live(id),
            !prev.changes.references(id),
            // registry evolution
            forall|e: usize| #[trigger]
                self.archetypes.spec_has_entity(e) <==> prev.archetypes.spec_has_entity(e) || e
                    == id,
            self.archetypes.spec_has_entity(id),
            self.archetypes.arch_of(id) == a,
            0 <= a < self.archetypes.arch_count(),
            forall|e: usize, k: usize|
                e != id && prev.live(e) && prev.has(e, k) ==> #[trigger] self.has(e, k)
                    && self.comp(e, k) == prev.comp(e, k),
            forall|e: usize, k: usize|
                e != id && prev.live(e) && !prev.has(e, k) ==> !(#[trigger] self.has(e, k)),
            forall|a2: int, j: int|
                #![trigger self.archetypes.arch(a2).sig()[j]]
                0 <= a2 < self.archetypes.arch_count() && 0 <= j < self.archetypes.arch(
                    a2,
                ).sig().len() ==> self.archetypes.arch(a2).sig()[j] < usize::MAX,
            self.archetypes.arch_count() <= usize::MAX,
        ensures
            self.wf(),
    {
        assert(self.storage_wf());
        assert forall|e: usize| #[trigger] self.live(e) implies e < self.entities.next() by {
            if e != id {
                assert(prev.live(e));
            }
        }
        assert forall|i: int| 0 <= i < self.entities.free().len() implies (
        #[trigger] self.entities.free()[i]) < self.entities.next() && !self.live(
            self.entities.free()[i],
        ) && !self.changes.references(self.entities.free()[i]) && !self.despawned@.contains(
            self.entities.free()[i],
        ) by {
            if prev.entities.free().len() > 0 && id == prev.entities.free().last() {
                assert(self.entities.free()[i] == prev.entities.free()[i]);
                assert(prev.entities.free()[i] != prev.entities.free()[prev.entities.free().len()
                    - 1]);
            } else {
                assert(self.entities.free()[i] == prev.entities.free()[i]);
                assert(prev.entities.free()[i] < prev.entities.next());
            }
        }
        assert forall|i: int| 0 <= i < self.despawned@.len() implies (
        #[trigger] self.despawned@[i]) < self.entities.next() && !self.live(self.despawned@[i])
            by {
            assert(!prev.live(prev.despawned@[i]));
            assert(self.despawned@[i] != id);
        }
        assert(self.ids_wf());
        assert forall|k: usize, e: usize| #![trigger self.delta(k, e)] true implies match self.delta(
            k,
            e,
        ) {
            Some(ChangeKind::Added) => self.has(e, k),
            Some(ChangeKind::Modified(_)) => self.has(e, k),
            Some(ChangeKind::Removed(_)) => !self.has(e, k),
            None => true,
        } by {
            assert(self.delta(k, e) == prev.delta(k, e));
            if !(self.delta(k, e) is None) {
                if e == id {
                    assert(prev.changes.references(e)) by {
                        if prev.changes.is_tracked(k) && !(prev.changes.rec(k).delta(e) is None) {
                            prev.changes.lemma_delta_references(k, e);
                        }
                    }
                    assert(false);
                } else {
                    assert(prev.has(e, k) ==> self.has(e, k) && prev.live(e));
                    assert(!prev.has(e, k) ==> !self.has(e, k) || !prev.live(e));
                    if !prev.live(e) {
                        match prev.delta(k, e) {
                            Some(ChangeKind::Added) => {
                                assert(prev.has(e, k));
                            },
                            Some(ChangeKind::Modified(_)) => {
                                assert(prev.has(e, k));
                            },
                            _ => {},
                        }
                    }
                }
            }
        }
    }
}

impl<C> World<C> {
    /// How a removal transforms one tracked delta, given the value that
    /// left storage: a same-generation addition collapses to no record, a
    /// modification keeps its earliest previous value, anything else
    /// records the departing value.
    pub open spec fn removed_transition(
        d: Option<ChangeKind<C>>,
        departing: C,
    ) -> Option<ChangeKind<C>> {
        match d {
            None => Some(ChangeKind::Removed(departing)),
            Some(ChangeKind::Added) => None,
            Some(ChangeKind::Modified(p)) => Some(ChangeKind::Removed(p)),
            Some(ChangeKind::Removed(p)) => Some(ChangeKind::Removed(p)),
        }
    }

    /// Removes the entity and all its components.  Every tracked component
    /// it carried is recorded as removed, carrying the value that left (or
    /// the generation's earliest previous value).  An id that a pending
    /// change record still mentions is withheld from reuse for good; an
    /// unreferenced id returns to the free list at once.  Despawning a
    /// dead entity is a no-op.
    #[verifier::rlimit(80)]
    pub fn despawn(&mut self, id: EntityId)
        requires
            old(self).wf(),
        ensures
            final(self).wf(),
            final(self).spec_next_id() == old(self).spec_next_id(),
            !final(self).live(id@),
            forall|e: usize| e != id@ ==> (#[trigger] final(self).live(e) <==> old(self).live(e)),
            final(self).others_unchanged(*old(self), id@),
            forall|k: usize| #[trigger] final(self).is_tracked(k) <==> old(self).is_tracked(k),
            forall|k: usize, e: usize|
                e != id@ ==> #[trigger] final(self).delta(k, e) == old(self).delta(k, e),
            forall|k: usize| #[trigger]
                final(self).delta(k, id@) == (if old(self).is_tracked(k) && old(self).has(
                    id@,
                    k,
                ) {
                    Self::removed_transition(old(self).delta(k, id@), old(self).comp(id@, k))
                } else {
                    old(self).delta(k, id@)
                }),
            forall|k: usize| #[trigger] final(self).res_has(k) <==> old(self).res_has(k),
            forall|k: usize| old(self).res_has(k) ==> #[trigger] final(self).res(k) == old(
                self,
            ).res(k),
    {
        let ghost prev = *old(self);
        let a_opt = self.archetypes.find_entity(id);
        match a_opt {
            None => {
                proof {
                    assert forall|k: usize| #[trigger]
                        self.delta(k, id@) == (if prev.is_tracked(k) && prev.has(id@, k) {
                            Self::removed_transition(prev.delta(k, id@), prev.comp(id@, k))
                        } else {
                            prev.delta(k, id@)
                        }) by {}
                    assert forall|e: usize, k: usize| #![trigger self.has(e, k)]
                        e != id@ implies (self.has(e, k) <==> prev.has(e, k)) && (prev.has(e, k)
                        ==> self.comp(e, k) == prev.comp(e, k)) by {}
                    assert(self.others_unchanged(prev, id@));
                }
            },
            Some(a) => {
                proof {
                    assert(prev.live(id@));
                    assert(id@ < usize::MAX);
                }
                let bundle_opt = self.archetypes.remove_at(a, id);
                let ghost shrunk = *self;
                proof {
                    self.lemma_despawn_storage(prev, id@, a as int);
                }
                let bundle = match bundle_opt {
                    Some(b) => b,
                    None => ComponentBundle::new(),
                };
                let ghost b0 = bundle@;
                let mut entries = bundle.into_entries();
                let ghost mut t: int = 0;
                while entries.len() > 0
                    invariant
                        prev.wf(),
                        id@ < usize::MAX,
                        prev.live(id@),
                        0 <= t <= b0.len(),
                        entries@ == b0.skip(t),
                        b0.len() == prev.archetypes.arch(prev.archetypes.arch_of(
                            id@,
                        )).sig().len(),
                        forall|j: int|
                            0 <= j < b0.len() ==> (#[trigger] b0[j]).0
                                == prev.archetypes.arch(prev.archetypes.arch_of(id@)).sig()[j]
                                && b0[j].1 == prev.comp(id@, b0[j].0),
                        self.archetypes == shrunk.archetypes,
                        self.entities == prev.entities,
                        self.resources == prev.resources,
                        self.despawned == prev.despawned,
                        shrunk.archetypes.wf(),
                        !shrunk.live(id@),
                        shrunk.others_unchanged(prev, id@),
                        forall|e: usize|
                            e != id@ ==> (#[trigger] shrunk.live(e) <==> prev.live(e)),
                        forall|e: usize| #[trigger] shrunk.live(e) ==> prev.live(e),
                        self.changes.wf(),
                        forall|k: usize| #[trigger]
                            self.changes.is_tracked(k) <==> prev.changes.is_tracked(k),
                        forall|k: usize, e: usize|
                            e != id@ ==> #[trigger] self.changes.delta(k, e) == prev.changes.delta(
                                k,
                                e,
                            ),
                        forall|k: usize| #[trigger]
                            self.changes.delta(k, id@) == (if prev.changes.is_tracked(k)
                                && Self::key_in_prefix(b0, t, k) {
                                Self::removed_transition(
                                    prev.changes.delta(k, id@),
                                    prev.comp(id@, k),
                                )
                            } else {
                                prev.changes.delta(k, id@)
                            }),
                        forall|e: usize| #[trigger]
                            self.changes.references(e) ==> prev.changes.references(e) || e == id@,
                    decreases entries@.len(),
                {
                    let entry = entries.remove(0);
                    proof {
                        assert(entries@ =~= b0.skip(t + 1));
                        assert(b0.skip(t)[0] == b0[t]);
                        assert(entry == b0[t]);
                        assert(prev.has(id@, entry.0)) by {
                            assert(prev.archetypes.arch(prev.archetypes.arch_of(
                                id@,
                            )).sig().contains(b0[t].0));
                        }
                        assert(!Self::key_in_prefix(b0, t, entry.0)) by {
                            if Self::key_in_prefix(b0, t, entry.0) {
                                let j = choose|j: int|
                                    0 <= j < t && (#[trigger] b0[j]).0 == entry.0;
                                let sig = prev.archetypes.arch(prev.archetypes.arch_of(
                                    id@,
                                )).sig();
                                prev.archetypes.arch(prev.archetypes.arch_of(
                                    id@,
                                )).lemma_sig_distinct();
                                assert(sig[j] == sig[t]);
                            }
                        }
                        assert(self.changes.delta(entry.0, id@) == prev.changes.delta(
                            entry.0,
                            id@,
                        ));
                        assert(prev.delta(entry.0, id@) == prev.changes.delta(entry.0, id@));
                        assert(!(self.changes.delta(entry.0, id@) matches Some(
                            ChangeKind::Removed(_),
                        ))) by {
                            if prev.delta(entry.0, id@) matches Some(ChangeKind::Removed(_)) {
                                assert(!prev.has(id@, entry.0));
                            }
                        }
                    }
                    let ghost mid = *self;
                    self.changes.mark_removed(id, entry.0, entry.1);
                    proof {
                        assert forall|k: usize, e: usize|
                            e != id@ implies #[trigger] self.changes.delta(k, e)
                            == prev.changes.delta(k, e) by {
                            assert(mid.changes.delta(k, e) == prev.changes.delta(k, e));
                            if k == entry.0 {
                                if mid.changes.is_tracked(k) {
                                    assert(self.changes.delta(k, e) == mid.changes.delta(k, e));
                                }
                            } else {
                                if mid.changes.is_tracked(k) {
                                    assert(self.changes.rec(k) == mid.changes.rec(k));
                                } else {
                                    assert(!self.changes.is_tracked(k));
                                }
                            }
                        }
                        assert forall|k: usize| #[trigger]
                            self.changes.delta(k, id@) == (if prev.changes.is_tracked(k)
                                && Self::key_in_prefix(b0, t + 1, k) {
                                Self::removed_transition(
                                    prev.changes.delta(k, id@),
                                    prev.comp(id@, k),
                                )
                            } else {
                                prev.changes.delta(k, id@)
                            }) by {
                            if k == entry.0 {
                                assert(Self::key_in_prefix(b0, t + 1, k)) by {
                                    assert(b0[t].0 == k);
                                }
                                assert(mid.changes.delta(k, id@) == prev.changes.delta(k, id@));
                                if prev.changes.is_tracked(k) {
                                    assert(mid.changes.is_tracked(k));
                                    assert(b0[t].1 == prev.comp(id@, k));
                                } else {
                                    assert(!mid.changes.is_tracked(k));
                                    assert(!self.changes.is_tracked(k));
                                    assert(self.changes.delta(k, id@) is None);
                                    assert(prev.changes.delta(k, id@) is None);
                                }
                            } else {
                                assert(Self::key_in_prefix(b0, t + 1, k) == Self::key_in_prefix(
                                    b0,
                                    t,
                                    k,
                                )) by {
                                    if Self::key_in_prefix(b0, t + 1, k) {
                                        let j = choose|j: int|
                                            0 <= j < t + 1 && (#[trigger] b0[j]).0 == k;
                                        assert(j != t);
                                    }
                                    if Self::key_in_prefix(b0, t, k) {
                                        let j = choose|j: int|
                                            0 <= j < t && (#[trigger] b0[j]).0 == k;
                                        assert(Self::key_in_prefix(b0, t + 1, k));
                                    }
                                }
                                if mid.changes.is_tracked(k) {
                                    assert(self.changes.rec(k) == mid.changes.rec(k));
                                    assert(self.changes.delta(k, id@) == mid.changes.delta(
                                        k,
                                        id@,
                                    ));
                                } else {
                                    assert(!self.changes.is_tracked(k));
                                }
                            }
                        }
                        assert forall|e: usize| #[trigger]
                            self.changes.references(e) implies prev.changes.references(e) || e
                            == id@ by {
                            if e != id@ {
                                let k2 = self.changes.lemma_references_witness(e);
                                assert(self.changes.delta(k2, e) == prev.changes.delta(k2, e));
                                prev.changes.lemma_delta_some_references(k2, e);
                            }
                        }
                        t = t + 1;
                    }
                }
                proof {
                    assert forall|k: usize| #[trigger]
                        self.changes.delta(k, id@) == (if prev.is_tracked(k) && prev.has(
                            id@,
                            k,
                        ) {
                            Self::removed_transition(prev.delta(k, id@), prev.comp(id@, k))
                        } else {
                            prev.delta(k, id@)
                        }) by {
                        if prev.has(id@, k) {
                            let sig = prev.archetypes.arch(prev.archetypes.arch_of(id@)).sig();
                            assert(sig.contains(k));
                            let j = choose|j: int| 0 <= j < sig.len() && sig[j] == k;
                            assert(b0[j].0 == k);
                            assert(Self::key_in_prefix(b0, t, k));
                            if prev.changes.is_tracked(k) {
                            } else {
                                assert(self.changes.delta(k, id@) is None);
                                assert(prev.changes.delta(k, id@) is None);
                            }
                        } else {
                            if Self::key_in_prefix(b0, t, k) {
                                let j = choose|j: int| 0 <= j < t && (#[trigger] b0[j]).0 == k;
                                let sig = prev.archetypes.arch(prev.archetypes.arch_of(
                                    id@,
                                )).sig();
                                assert(sig.contains(sig[j]));
                            }
                        }
                    }
                }
                if self.changes.contains(id) {
                    self.despawned.push(id.id());
                } else {
                    self.entities.despawn(id.id());
                }
                proof {
                    self.lemma_despawn_post(prev, shrunk, id@);
                }
            },
        }
    }

    /// Whether `k` occurs among the first `t` entries of `b`.
    pub open spec fn key_in_prefix(b: Seq<(usize, C)>, t: int, k: usize) -> bool {
        exists|j: int| 0 <= j < t && (#[trigger] b[j]).0 == k
    }

    /// The storage-side facts after the entity's row has been removed.
    proof fn lemma_despawn_storage(&self, prev: Self, id: usize, a: int)
        requires
            prev.wf(),
            prev.live(id),
            a == prev.archetypes.arch_of(id),
            self.archetypes.wf(),
            self.archetypes.arch_count() == prev.archetypes.arch_count(),
            forall|b: int|
                0 <= b < prev.archetypes.arch_count() && b != a ==> self.archetypes.arch(b)
                    == prev.archetypes.arch(b),
            self.archetypes.arch(a).sig() == prev.archetypes.arch(a).sig(),
            forall|e: usize| #[trigger]
                self.archetypes.spec_has_entity(e) <==> prev.archetypes.spec_has_entity(e) && !(e
                    == id && prev.archetypes.arch(a).has_entity(id)),
            self.archetypes.arch(a).others_comps_unchanged(prev.archetypes.arch(a), id),
        ensures
            !self.live(id),
            forall|e: usize| e != id ==> (#[trigger] self.live(e) <==> prev.live(e)),
            forall|e: usize| #[trigger] self.live(e) ==> prev.live(e),
            self.others_unchanged(prev, id),
    {
        prev.archetypes.lemma_arch_of(id);
        assert(prev.archetypes.arch(a).has_entity(id));
        assert forall|e: usize, k: usize| #![trigger self.has(e, k)]
            e != id implies (self.has(e, k) <==> prev.has(e, k)) && (prev.has(e, k)
            ==> self.comp(e, k) == prev.comp(e, k)) by {
            if prev.live(e) {
                prev.archetypes.lemma_arch_of(e);
                let b = prev.archetypes.arch_of(e);
                assert(self.archetypes.spec_has_entity(e));
                assert(self.archetypes.arch(b).has_entity(e)) by {
                    if b != a {
                        assert(self.archetypes.arch(b) == prev.archetypes.arch(b));
                    }
                }
                self.archetypes.lemma_arch_of(e);
                assert(self.archetypes.arch_of(e) == b);
                assert(self.archetypes.arch(b).sig() == prev.archetypes.arch(b).sig()) by {
                    if b != a {
                        assert(self.archetypes.arch(b) == prev.archetypes.arch(b));
                    }
                }
                if prev.has(e, k) {
                    if b == a {
                        assert(self.archetypes.arch(a).comp(e, k) == prev.archetypes.arch(a).comp(
                            e,
                            k,
                        ));
                    } else {
                        assert(self.archetypes.arch(b) == prev.archetypes.arch(b));
                    }
                }
            } else {
                assert(!self.live(e));
            }
        }
    }

    /// The id-policy facts after the marks have been recorded and the id
    /// has been freed or withheld.
    proof fn lemma_despawn_post(&self, prev: Self, shrunk: Self, id: usize)
        requires
            prev.wf(),
            prev.live(id),
            self.archetypes == shrunk.archetypes,
            self.resources == prev.resources,
            shrunk.archetypes.wf(),
            !shrunk.live(id),
            shrunk.others_unchanged(prev, id),
            forall|e: usize| e != id ==> (#[trigger] shrunk.live(e) <==> prev.live(e)),
            forall|e: usize| #[trigger] shrunk.live(e) ==> prev.live(e),
            forall|a2: int, j: int|
                #![trigger shrunk.archetypes.arch(a2).sig()[j]]
                0 <= a2 < shrunk.archetypes.arch_count() && 0 <= j < shrunk.archetypes.arch(
                    a2,
                ).sig().len() ==> shrunk.archetypes.arch(a2).sig()[j] < usize::MAX,
            shrunk.archetypes.arch_count() <= usize::MAX,
            self.changes.wf(),
            forall|k: usize| #[trigger]
                self.changes.is_tracked(k) <==> prev.changes.is_tracked(k),
            forall|k: usize, e: usize|
                e != id ==> #[trigger] self.changes.delta(k, e) == prev.changes.delta(k, e),
            forall|k: usize| #[trigger]
                self.changes.delta(k, id) == (if prev.is_tracked(k) && prev.has(id, k) {
                    Self::removed_transition(prev.delta(k, id), prev.comp(id, k))
                } else {
                    prev.delta(k, id)
                }),
            forall|e: usize| #[trigger]
                self.changes.references(e) ==> prev.changes.references(e) || e == id,
            // the id went one way or the other
            (self.changes.references(id) && self.despawned@ == prev.despawned@.push(id)
                && self.entities == prev.entities) || (!self.changes.references(id)
                && self.despawned == prev.despawned && self.entities.free()
                == prev.entities.free().push(id) && self.entities.next() == prev.entities.next()),
        ensures
            self.wf(),
            self.others_unchanged(prev, id),
    {
        assert(self.storage_wf()) by {
            assert(self.archetypes.wf());
        }
        assert forall|e: usize| #[trigger] self.live(e) <==> shrunk.live(e) by {
            assert(self.archetypes.spec_has_entity(e) == shrunk.archetypes.spec_has_entity(e));
        }
        assert forall|e: usize, k: usize| #![trigger self.has(e, k)]
            (self.has(e, k) <==> shrunk.has(e, k)) && (shrunk.has(e, k) ==> self.comp(e, k)
                == shrunk.comp(e, k)) by {
            assert(self.archetypes == shrunk.archetypes);
        }
        assert forall|e: usize, k: usize| #![trigger self.has(e, k)]
            e != id implies (self.has(e, k) <==> prev.has(e, k)) && (prev.has(e, k) ==> self.comp(
            e,
            k,
        ) == prev.comp(e, k)) by {
            assert(shrunk.has(e, k) <==> prev.has(e, k));
            assert(self.has(e, k) <==> shrunk.has(e, k));
            if prev.has(e, k) {
                assert(shrunk.comp(e, k) == prev.comp(e, k));
            }
        }
        assert(self.others_unchanged(prev, id));
        assert forall|e: usize| #[trigger] self.live(e) implies e < self.entities.next() by {
            assert(shrunk.live(e));
            assert(prev.live(e));
        }
        assert forall|i: int| 0 <= i < self.entities.free().len() implies (
        #[trigger] self.entities.free()[i]) < self.entities.next() && !self.live(
            self.entities.free()[i],
        ) && !self.changes.references(self.entities.free()[i]) && !self.despawned@.contains(
            self.entities.free()[i],
        ) by {
            if i < prev.entities.free().len() {
                assert(self.entities.free()[i] == prev.entities.free()[i]);
                let f = prev.entities.free()[i];
                assert(!prev.live(f));
                assert(f != id);
                assert(!shrunk.live(f));
                assert(!self.live(f));
                assert(!self.changes.references(f)) by {
                    if self.changes.references(f) {
                        assert(prev.changes.references(f));
                    }
                }
                assert(!self.despawned@.contains(f)) by {
                    if self.despawned@.contains(f) {
                        let j = choose|j: int|
                            0 <= j < self.despawned@.len() && self.despawned@[j] == f;
                        if j < prev.despawned@.len() {
                            assert(prev.despawned@.contains(f));
                        }
                    }
                }
            } else {
                assert(self.entities.free()[i] == id);
                assert(!shrunk.live(id));
                assert(!self.live(id));
                assert(!self.changes.references(id));
                assert(!self.despawned@.contains(id)) by {
                    if self.despawned@.contains(id) {
                        let j = choose|j: int|
                            0 <= j < self.despawned@.len() && self.despawned@[j] == id;
                        assert(!prev.live(prev.despawned@[j]));
                    }
                }
            }
        }
        assert forall|i: int, j: int|
            0 <= i < j < self.entities.free().len() implies self.entities.free()[i]
            != self.entities.free()[j] by {
            if j < prev.entities.free().len() {
            } else {
                assert(self.entities.free()[j] == id);
                assert(self.entities.free()[i] == prev.entities.free()[i]);
                assert(!prev.live(prev.entities.free()[i]));
            }
        }
        assert forall|i: int| 0 <= i < self.despawned@.len() implies (
        #[trigger] self.despawned@[i]) < self.entities.next() && !self.live(self.despawned@[i])
            by {
            if i < prev.despawned@.len() {
                assert(self.despawned@[i] == prev.despawned@[i]);
                let d = prev.despawned@[i];
                assert(!prev.live(d));
                assert(d != id);
                assert(!shrunk.live(d));
                assert(!self.live(d));
            } else {
                assert(self.despawned@[i] == id);
                assert(!shrunk.live(id));
                assert(!self.live(id));
            }
        }
        assert forall|i: int, j: int|
            0 <= i < j < self.despawned@.len() implies self.despawned@[i]
            != self.despawned@[j] by {
            if j < prev.despawned@.len() {
            } else if self.despawned@.len() > prev.despawned@.len() {
                assert(self.despawned@[j] == id);
                assert(self.despawned@[i] == prev.despawned@[i]);
                assert(!prev.live(prev.despawned@[i]));
            }
        }
        assert forall|e: usize| #[trigger] self.changes.references(e) implies e
            < self.entities.next() by {
            if e == id {
                assert(prev.live(id));
            } else {
                assert(prev.changes.references(e));
            }
        }
        assert(self.ids_wf());
        assert forall|k: usize, e: usize| #![trigger self.delta(k, e)] true implies match self.delta(
            k,
            e,
        ) {
            Some(ChangeKind::Added) => self.has(e, k),
            Some(ChangeKind::Modified(_)) => self.has(e, k),
            Some(ChangeKind::Removed(_)) => !self.has(e, k),
            None => true,
        } by {
            if e == id {
                assert(!shrunk.live(id));
                assert(!self.live(id));
                assert(!self.has(id, k));
                match self.delta(k, e) {
                    Some(ChangeKind::Added) => {
                        assert(prev.delta(k, id) == Some(ChangeKind::<C>::Added));
                        assert(prev.has(id, k));
                        assert(!(prev.is_tracked(k) && prev.has(id, k)));
                    },
                    Some(ChangeKind::Modified(_)) => {
                        assert(!(prev.is_tracked(k) && prev.has(id, k))) by {
                            if prev.is_tracked(k) && prev.has(id, k) {
                                match prev.delta(k, id) {
                                    Some(ChangeKind::Removed(_)) => {
                                        assert(!prev.has(id, k));
                                    },
                                    _ => {},
                                }
                            }
                        }
                        assert(prev.has(id, k));
                    },
                    _ => {},
                }
            } else {
                assert(self.delta(k, e) == prev.delta(k, e));
                assert(self.has(e, k) <==> prev.has(e, k)) by {
                    assert(shrunk.has(e, k) <==> prev.has(e, k));
                }
            }
        }
    }

}

impl<C> World<C> {
    /// How one structural edit transforms an entity's component row.
    pub open spec fn row_step(row: Map<usize, C>, op: ComponentChange<C>) -> Map<usize, C> {
        match op {
            ComponentChange::Insert(k, c) => row.insert(k, c),
            ComponentChange::Remove(k) => row.remove(k),
        }
    }

    /// The component row after a whole list of edits, applied in order.
    pub open spec fn row_after(row: Map<usize, C>, cs: Seq<ComponentChange<C>>) -> Map<usize, C>
        decreases cs.len(),
    {
        if cs.len() == 0 {
            row
        } else {
            Self::row_after(Self::row_step(row, cs[0]), cs.skip(1))
        }
    }

    /// How an addition transforms one tracked delta: a component removed
    /// earlier this generation comes back as a modification keeping the
    /// stored previous value.
    pub open spec fn added_transition(d: Option<ChangeKind<C>>) -> Option<ChangeKind<C>> {
        match d {
            None => Some(ChangeKind::Added),
            Some(ChangeKind::Removed(p)) => Some(ChangeKind::Modified(p)),
            _ => d,
        }
    }

    /// How a replacement transforms one tracked delta: only the earliest
    /// overwritten value of the generation is kept.
    pub open spec fn changed_transition(
        d: Option<ChangeKind<C>>,
        overwritten: C,
    ) -> Option<ChangeKind<C>> {
        match d {
            None => Some(ChangeKind::Modified(overwritten)),
            _ => d,
        }
    }

    /// How one structural edit transforms the tracked delta of key `k`,
    /// given the row the edit applies to.
    pub open spec fn delta_step(
        d: Option<ChangeKind<C>>,
        row: Map<usize, C>,
        k: usize,
        op: ComponentChange<C>,
    ) -> Option<ChangeKind<C>> {
        match op {
            ComponentChange::Insert(k2, _) => if k2 == k {
                if row.contains_key(k) {
                    Self::changed_transition(d, row[k])
                } else {
                    Self::added_transition(d)
                }
            } else {
                d
            },
            ComponentChange::Remove(k2) => if k2 == k && row.contains_key(k) {
                Self::removed_transition(d, row[k])
            } else {
                d
            },
        }
    }

    /// The tracked delta of key `k` after a whole list of edits.
    pub open spec fn delta_after(
        d: Option<ChangeKind<C>>,
        row: Map<usize, C>,
        k: usize,
        cs: Seq<ComponentChange<C>>,
    ) -> Option<ChangeKind<C>>
        decreases cs.len(),
    {
        if cs.len() == 0 {
            d
        } else {
            Self::delta_after(
                Self::delta_step(d, row, k, cs[0]),
                Self::row_step(row, cs[0]),
                k,
                cs.skip(1),
            )
        }
    }

    /// How inserting a bundle transforms the tracked delta of key `k`:
    /// a bundle member replaces or adds, any other key is untouched.
    pub open spec fn insert_transition(
        d: Option<ChangeKind<C>>,
        row: Map<usize, C>,
        k: usize,
        bundle: ComponentBundle<C>,
    ) -> Option<ChangeKind<C>> {
        if bundle.has_key(k) {
            if row.contains_key(k) {
                Self::changed_transition(d, row[k])
            } else {
                Self::added_transition(d)
            }
        } else {
            d
        }
    }

    /// How removing a key set transforms the tracked delta of key `k`:
    /// a carried key in the set is recorded as removed, anything else is
    /// untouched.
    pub open spec fn remove_keys_transition(
        d: Option<ChangeKind<C>>,
        row: Map<usize, C>,
        k: usize,
        keys: Seq<usize>,
    ) -> Option<ChangeKind<C>> {
        if keys.contains(k) && row.contains_key(k) {
            Self::removed_transition(d, row[k])
        } else {
            d
        }
    }

    /// Applies a list of structural edits to one entity, in order, then
    /// migrates it to the archetype of its new signature.  Tracked types
    /// record every transition, always keeping the generation's earliest
    /// previous value.  Modifying a dead entity is a no-op.
    pub fn modify(&mut self, id: EntityId, updates: Vec<ComponentChange<C>>)
        requires
            old(self).wf(),
            forall|i: int| 0 <= i < updates@.len() ==> (#[trigger] updates@[i]).key() < usize::MAX,
        ensures
            final(self).wf(),
            final(self).spec_next_id() == old(self).spec_next_id(),
            forall|e: usize| #[trigger] final(self).live(e) <==> old(self).live(e),
            final(self).others_unchanged(*old(self), id@),
            forall|k: usize| #[trigger] final(self).is_tracked(k) <==> old(self).is_tracked(k),
            forall|k: usize, e: usize|
                e != id@ ==> #[trigger] final(self).delta(k, e) == old(self).delta(k, e),
            forall|k: usize| #[trigger] final(self).res_has(k) <==> old(self).res_has(k),
            forall|k: usize| old(self).res_has(k) ==> #[trigger] final(self).res(k) == old(
                self,
            ).res(k),
            !old(self).live(id@) ==> (forall|k: usize| #[trigger]
                final(self).has(id@, k) <==> old(self).has(id@, k)) && (forall|k: usize|
                #[trigger] final(self).delta(k, id@) == old(self).delta(k, id@)),
            old(self).live(id@) ==> {
                &&& forall|k: usize| #[trigger]
                    final(self).has(id@, k) <==> Self::row_after(
                        old(self).row(id@),
                        updates@,
                    ).contains_key(k)
                &&& forall|k: usize|
                    final(self).has(id@, k) ==> #[trigger] final(self).comp(id@, k)
                        == Self::row_after(old(self).row(id@), updates@)[k]
                &&& forall|k: usize| #[trigger]
                    final(self).delta(k, id@) == (if old(self).is_tracked(k) {
                        Self::delta_after(
                            old(self).delta(k, id@),
                            old(self).row(id@),
                            k,
                            updates@,
                        )
                    } else {
                        None::<ChangeKind<C>>
                    })
            },
    {
        let ghost prev = *old(self);
        let a_opt = self.archetypes.find_entity(id);
        match a_opt {
            None => {
                proof {
                    assert(self.others_unchanged(prev, id@));
                }
            },
            Some(a) => {
                proof {
                    assert(prev.live(id@));
                    assert(id@ < usize::MAX);
                    prev.archetypes.lemma_arch_of(id@);
                }
                let bundle_opt = self.archetypes.remove_at(a, id);
                let ghost shrunk = *self;
                proof {
                    self.lemma_despawn_storage(prev, id@, a as int);
                }
                let mut bundle = match bundle_opt {
                    Some(b) => b,
                    None => ComponentBundle::new(),
                };
                proof {
                    self.lemma_harvest_row(prev, id@, a as int, bundle);
                    assert forall|k: usize| #![trigger self.changes.delta(k, id@)]
                        true implies match self.changes.delta(k, id@) {
                        Some(ChangeKind::Added) => bundle.has_key(k),
                        Some(ChangeKind::Modified(_)) => bundle.has_key(k),
                        Some(ChangeKind::Removed(_)) => !bundle.has_key(k),
                        None => true,
                    } by {
                        assert(self.changes.delta(k, id@) == prev.delta(k, id@));
                        assert(bundle.contents() == prev.row(id@));
                        assert(bundle.has_key(k) <==> bundle.contents().contains_key(k));
                        assert(prev.row(id@).contains_key(k) <==> prev.has(id@, k));
                    }
                }
                let ghost cs = updates@;
                let mut ops = updates;
                let ghost mut t: int = 0;
                while ops.len() > 0
                    invariant
                        prev.wf(),
                        id@ < usize::MAX,
                        prev.live(id@),
                        0 <= t <= cs.len(),
                        ops@ == cs.skip(t),
                        forall|i: int| 0 <= i < cs.len() ==> (#[trigger] cs[i]).key() < usize::MAX,
                        self.archetypes == shrunk.archetypes,
                        self.entities == prev.entities,
                        self.resources == prev.resources,
                        self.despawned == prev.despawned,
                        shrunk.archetypes.wf(),
                        !shrunk.live(id@),
                        bundle.wf(),
                        forall|i: int|
                            0 <= i < bundle@.len() ==> (#[trigger] bundle@[i]).0 < usize::MAX,
                        self.changes.wf(),
                        forall|k: usize| #[trigger]
                            self.changes.is_tracked(k) <==> prev.changes.is_tracked(k),
                        forall|k: usize, e: usize|
                            e != id@ ==> #[trigger] self.changes.delta(k, e) == prev.changes.delta(
                                k,
                                e,
                            ),
                        Self::row_after(prev.row(id@), cs) == Self::row_after(
                            bundle.contents(),
                            cs.skip(t),
                        ),
                        forall|k: usize|
                            prev.changes.is_tracked(k) ==> #[trigger] Self::delta_after(
                                prev.changes.delta(k, id@),
                                prev.row(id@),
                                k,
                                cs,
                            ) == Self::delta_after(
                                self.changes.delta(k, id@),
                                bundle.contents(),
                                k,
                                cs.skip(t),
                            ),
                        forall|k: usize| #![trigger self.changes.delta(k, id@)]
                            match self.changes.delta(k, id@) {
                                Some(ChangeKind::Added) => bundle.has_key(k),
                                Some(ChangeKind::Modified(_)) => bundle.has_key(k),
                                Some(ChangeKind::Removed(_)) => !bundle.has_key(k),
                                None => true,
                            },
                        forall|e: usize| #[trigger]
                            self.changes.references(e) ==> prev.changes.references(e) || e == id@,
                    decreases ops@.len(),
                {
                    let op = ops.remove(0);
                    let ghost bundle0 = bundle;
                    let ghost changes0 = *self;
                    proof {
                        assert(ops@ =~= cs.skip(t + 1));
                        assert(cs.skip(t)[0] == cs[t]);
                        assert(op == cs[t]);
                        assert(cs.skip(t).skip(1) =~= cs.skip(t + 1));
                    }
                    match op {
                        ComponentChange::Insert(k, c) => {
                            let old_c = bundle.remove(k);
                            bundle.insert(k, c);
                            proof {
                                assert(bundle.contents() =~= Self::row_step(
                                    bundle0.contents(),
                                    op,
                                ));
                            }
                            match old_c {
                                Some(p) => {
                                    self.changes.mark_changed(id, k, p);
                                },
                                None => {
                                    self.changes.mark_added(id, k);
                                },
                            }
                        },
                        ComponentChange::Remove(k) => {
                            let removed_c = bundle.remove(k);
                            proof {
                                assert(bundle.contents() =~= Self::row_step(
                                    bundle0.contents(),
                                    op,
                                ));
                            }
                            match removed_c {
                                Some(p) => {
                                    self.changes.mark_removed(id, k, p);
                                },
                                None => {},
                            }
                        },
                    }
                    proof {
                        let ghost opg = cs[t];
                        assert(bundle.contents() == Self::row_step(bundle0.contents(), opg));
                        assert(Self::row_after(bundle0.contents(), cs.skip(t))
                            == Self::row_after(bundle.contents(), cs.skip(t + 1)));
                        assert forall|k: usize, e: usize|
                            e != id@ implies #[trigger] self.changes.delta(k, e)
                            == prev.changes.delta(k, e) by {
                            assert(changes0.changes.delta(k, e) == prev.changes.delta(k, e));
                            match opg {
                                ComponentChange::Insert(k0, _) => {
                                    if k == k0 {
                                        if changes0.changes.is_tracked(k) {
                                            assert(self.changes.delta(k, e)
                                                == changes0.changes.delta(k, e));
                                        }
                                    } else {
                                        if changes0.changes.is_tracked(k) {
                                            assert(self.changes.rec(k) == changes0.changes.rec(
                                                k,
                                            ));
                                        } else {
                                            assert(!self.changes.is_tracked(k));
                                        }
                                    }
                                },
                                ComponentChange::Remove(k0) => {
                                    if k == k0 {
                                        if changes0.changes.is_tracked(k) {
                                            assert(self.changes.delta(k, e)
                                                == changes0.changes.delta(k, e));
                                        }
                                    } else {
                                        if changes0.changes.is_tracked(k) {
                                            assert(self.changes.rec(k) == changes0.changes.rec(
                                                k,
                                            ));
                                        } else {
                                            assert(!self.changes.is_tracked(k));
                                        }
                                    }
                                },
                            }
                        }
                        assert forall|k: usize| changes0.changes.is_tracked(k) implies #[trigger]
                            self.changes.delta(k, id@) == Self::delta_step(
                            changes0.changes.delta(k, id@),
                            bundle0.contents(),
                            k,
                            opg,
                        ) by {
                            let d0 = changes0.changes.delta(k, id@);
                            match opg {
                                ComponentChange::Insert(k0, _) => {
                                    if k == k0 {
                                        if bundle0.contents().contains_key(k0) {
                                            assert(bundle0.has_key(k0));
                                            assert(bundle0.contents()[k0] == bundle0.spec_get(
                                                k0,
                                            ));
                                        } else {
                                            assert(!bundle0.has_key(k0));
                                        }
                                    } else {
                                        assert(self.changes.rec(k) == changes0.changes.rec(k));
                                    }
                                },
                                ComponentChange::Remove(k0) => {
                                    if k == k0 && bundle0.contents().contains_key(k0) {
                                        assert(bundle0.has_key(k0));
                                        assert(bundle0.contents()[k0] == bundle0.spec_get(k0));
                                    } else {
                                        if k == k0 {
                                            assert(!bundle0.has_key(k0));
                                        } else {
                                            assert(self.changes.rec(k) == changes0.changes.rec(
                                                k,
                                            ));
                                        }
                                    }
                                },
                            }
                        }
                        assert forall|k: usize|
                            prev.changes.is_tracked(k) implies #[trigger] Self::delta_after(
                            prev.changes.delta(k, id@),
                            prev.row(id@),
                            k,
                            cs,
                        ) == Self::delta_after(
                            self.changes.delta(k, id@),
                            bundle.contents(),
                            k,
                            cs.skip(t + 1),
                        ) by {
                            assert(Self::delta_after(
                                changes0.changes.delta(k, id@),
                                bundle0.contents(),
                                k,
                                cs.skip(t),
                            ) == Self::delta_after(
                                Self::delta_step(
                                    changes0.changes.delta(k, id@),
                                    bundle0.contents(),
                                    k,
                                    opg,
                                ),
                                Self::row_step(bundle0.contents(), opg),
                                k,
                                cs.skip(t + 1),
                            ));
                        }
                        assert forall|k: usize| #![trigger self.changes.delta(k, id@)]
                            true implies match self.changes.delta(k, id@) {
                            Some(ChangeKind::Added) => bundle.has_key(k),
                            Some(ChangeKind::Modified(_)) => bundle.has_key(k),
                            Some(ChangeKind::Removed(_)) => !bundle.has_key(k),
                            None => true,
                        } by {
                            let d0 = changes0.changes.delta(k, id@);
                            if changes0.changes.is_tracked(k) {
                                assert(self.changes.delta(k, id@) == Self::delta_step(
                                    d0,
                                    bundle0.contents(),
                                    k,
                                    opg,
                                ));
                            } else {
                                assert(!self.changes.is_tracked(k));
                                assert(self.changes.delta(k, id@) is None);
                            }
                            match opg {
                                ComponentChange::Insert(k0, _) => {
                                    if k == k0 {
                                        assert(bundle.has_key(k));
                                    } else {
                                        assert(bundle.has_key(k) <==> bundle0.has_key(k));
                                    }
                                },
                                ComponentChange::Remove(k0) => {
                                    if k == k0 {
                                        assert(!bundle.has_key(k));
                                    } else {
                                        assert(bundle.has_key(k) <==> bundle0.has_key(k));
                                    }
                                },
                            }
                        }
                        assert forall|e: usize| #[trigger]
                            self.changes.references(e) implies prev.changes.references(e) || e
                            == id@ by {
                            if e != id@ {
                                let k2 = self.changes.lemma_references_witness(e);
                                assert(self.changes.delta(k2, e) == prev.changes.delta(k2, e));
                                prev.changes.lemma_delta_some_references(k2, e);
                            }
                        }
                        assert forall|i: int|
                            0 <= i < bundle@.len() implies (#[trigger] bundle@[i]).0
                            < usize::MAX by {
                            match opg {
                                ComponentChange::Insert(k0, _) => {
                                    if bundle@[i].0 != k0 {
                                        assert(bundle.has_key(bundle@[i].0));
                                        assert(bundle0.has_key(bundle@[i].0) || bundle@[i].0
                                            == k0) by {
                                            if !bundle0.has_key(bundle@[i].0) {
                                            }
                                        }
                                        let j = choose|j: int|
                                            0 <= j < bundle0@.len() && (#[trigger] bundle0@[j]).0
                                                == bundle@[i].0;
                                    }
                                },
                                ComponentChange::Remove(_) => {
                                    assert(bundle.has_key(bundle@[i].0));
                                    assert(bundle0.has_key(bundle@[i].0));
                                    let j = choose|j: int|
                                        0 <= j < bundle0@.len() && (#[trigger] bundle0@[j]).0
                                            == bundle@[i].0;
                                },
                            }
                        }
                        t = t + 1;
                    }
                }
                proof {
                    assert(cs.skip(cs.len() as int) =~= Seq::<ComponentChange<C>>::empty());
                }
                let ghost folded = bundle;
                let a2 = self.archetypes.component_archetype(&bundle);
                let ghost routed = self.archetypes;
                proof {
                    assert forall|e: usize| #[trigger]
                        routed.spec_has_entity(e) <==> shrunk.archetypes.spec_has_entity(e) by {
                        if routed.spec_has_entity(e) {
                            let b = choose|b: int|
                                0 <= b < routed.arch_count() && (#[trigger] routed.arch(
                                    b,
                                )).has_entity(e);
                            if b < shrunk.archetypes.arch_count() {
                                assert(shrunk.archetypes.arch(b).has_entity(e));
                            } else {
                                assert(routed.arch(b).members() == Seq::<usize>::empty());
                            }
                        }
                        if shrunk.archetypes.spec_has_entity(e) {
                            let b = choose|b: int|
                                0 <= b < shrunk.archetypes.arch_count() && (
                                #[trigger] shrunk.archetypes.arch(b)).has_entity(e);
                            assert(routed.arch(b) == shrunk.archetypes.arch(b));
                            assert(routed.arch(b).has_entity(e));
                        }
                    }
                    assert(!routed.spec_has_entity(id@));
                }
                self.archetypes.insert_at(a2, id, bundle);
                // reading the length records that the archetype count fits in a machine word
                let _total = self.archetypes.len();
                proof {
                    assert(folded.contents() == Self::row_after(prev.row(id@), cs));
                    assert forall|k: usize|
                        prev.changes.is_tracked(k) implies #[trigger] Self::delta_after(
                        prev.changes.delta(k, id@),
                        prev.row(id@),
                        k,
                        cs,
                    ) == self.changes.delta(k, id@) by {}
                    assert forall|a3: int, j: int|
                        #![trigger routed.arch(a3).sig()[j]]
                        0 <= a3 < routed.arch_count() && 0 <= j < routed.arch(a3).sig().len()
                            implies routed.arch(a3).sig()[j] < usize::MAX by {
                        let kj = routed.arch(a3).sig()[j];
                        assert(routed.arch(a3).sig().contains(kj));
                        if a3 < shrunk.archetypes.arch_count() {
                            assert(routed.arch(a3) == shrunk.archetypes.arch(a3));
                            if a3 == a as int {
                                assert(shrunk.archetypes.arch(a3).sig() == prev.archetypes.arch(
                                    a3,
                                ).sig());
                            } else {
                                assert(shrunk.archetypes.arch(a3) == prev.archetypes.arch(a3));
                            }
                            assert(prev.archetypes.arch(a3).sig()[j] < usize::MAX);
                        } else {
                            assert(routed.arch(a3).has_type(kj) <==> folded.has_key(kj));
                            let s = choose|s: int|
                                0 <= s < folded@.len() && (#[trigger] folded@[s]).0 == kj;
                        }
                    }
                    self.lemma_modify_post(prev, shrunk, routed, folded, id@, cs, a2 as int);
                }
            },
        }
    }
}

impl<C> World<C> {
    /// A bundle harvested from the entity's row spells out exactly that row.
    proof fn lemma_harvest_row(&self, prev: Self, id: usize, a: int, bundle: ComponentBundle<C>)
        requires
            prev.wf(),
            prev.live(id),
            a == prev.archetypes.arch_of(id),
            bundle.wf(),
            bundle@.len() == prev.archetypes.arch(a).sig().len(),
            forall|j: int|
                0 <= j < bundle@.len() ==> (#[trigger] bundle@[j]).0 == prev.archetypes.arch(
                    a,
                ).sig()[j] && bundle@[j].1 == prev.archetypes.arch(a).comp(
                    id,
                    prev.archetypes.arch(a).sig()[j],
                ),
        ensures
            bundle.contents() == prev.row(id),
            forall|i: int| 0 <= i < bundle@.len() ==> (#[trigger] bundle@[i]).0 < usize::MAX,
    {
        prev.archetypes.lemma_arch_of(id);
        let sig = prev.archetypes.arch(a).sig();
        assert forall|k: usize| #[trigger] bundle.has_key(k) <==> prev.has(id, k) by {
            if bundle.has_key(k) {
                let j = choose|j: int| 0 <= j < bundle@.len() && (#[trigger] bundle@[j]).0 == k;
                assert(sig[j] == k);
                assert(sig.contains(k));
            }
            if prev.has(id, k) {
                assert(sig.contains(k));
                let j = choose|j: int| 0 <= j < sig.len() && sig[j] == k;
                assert(bundle@[j].0 == k);
            }
        }
        assert forall|k: usize|
            #[trigger] bundle.has_key(k) implies bundle.spec_get(k) == prev.comp(id, k) by {
            bundle.lemma_idx_of(k);
            let j = bundle.idx_of(k);
            assert(bundle@[j].0 == k && sig[j] == k);
            assert(bundle@[j].1 == prev.archetypes.arch(a).comp(id, k));
        }
        assert(bundle.contents() =~= prev.row(id));
        assert forall|i: int| 0 <= i < bundle@.len() implies (#[trigger] bundle@[i]).0
            < usize::MAX by {
            assert(bundle@[i].0 == prev.archetypes.arch(a).sig()[i]);
        }
    }

    /// Ties the state after migration back to the modify contract.
    proof fn lemma_modify_post(
        &self,
        prev: Self,
        shrunk: Self,
        routed: Archetypes<C>,
        folded: ComponentBundle<C>,
        id: usize,
        cs: Seq<ComponentChange<C>>,
        a2: int,
    )
        requires
            prev.wf(),
            prev.live(id),
            // storage after removal
            shrunk.archetypes.wf(),
            !shrunk.live(id),
            shrunk.others_unchanged(prev, id),
            forall|e: usize| e != id ==> (#[trigger] shrunk.live(e) <==> prev.live(e)),
            forall|e: usize| #[trigger] shrunk.live(e) ==> prev.live(e),
            // routing appended at most one empty archetype
            routed.wf(),
            shrunk.archetypes.arch_count() <= routed.arch_count(),
            forall|b: int|
                0 <= b < shrunk.archetypes.arch_count() ==> #[trigger] routed.arch(b)
                    == shrunk.archetypes.arch(b),
            forall|e: usize| #[trigger]
                routed.spec_has_entity(e) <==> shrunk.archetypes.spec_has_entity(e),
            0 <= a2 < routed.arch_count(),
            forall|k: usize| #[trigger] routed.arch(a2).has_type(k) <==> folded.has_key(k),
            forall|a3: int, j: int|
                #![trigger routed.arch(a3).sig()[j]]
                0 <= a3 < routed.arch_count() && 0 <= j < routed.arch(a3).sig().len()
                    ==> routed.arch(a3).sig()[j] < usize::MAX,
            // the folded bundle is the folded row
            folded.wf(),
            folded.contents() == Self::row_after(prev.row(id), cs),
            // final registry state
            self.archetypes.wf(),
            self.archetypes.arch_count() == routed.arch_count(),
            forall|b: int|
                0 <= b < routed.arch_count() && b != a2 ==> self.archetypes.arch(b) == routed.arch(
                    b,
                ),
            self.archetypes.arch(a2).sig() == routed.arch(a2).sig(),
            forall|k: usize| #[trigger]
                folded.has_key(k) ==> self.archetypes.arch(a2).comp(id, k) == folded.spec_get(k),
            self.archetypes.arch(a2).others_unchanged(routed.arch(a2), id),
            forall|e: usize| #[trigger]
                self.archetypes.spec_has_entity(e) <==> routed.spec_has_entity(e) || e == id,
            self.archetypes.spec_has_entity(id),
            self.archetypes.arch_of(id) == a2,
            // untouched fields
            self.entities == prev.entities,
            self.resources == prev.resources,
            self.despawned == prev.despawned,
            // change state after the marks
            self.changes.wf(),
            forall|k: usize| #[trigger]
                self.changes.is_tracked(k) <==> prev.changes.is_tracked(k),
            forall|k: usize, e: usize|
                e != id ==> #[trigger] self.changes.delta(k, e) == prev.changes.delta(k, e),
            forall|k: usize|
                prev.changes.is_tracked(k) ==> #[trigger] Self::delta_after(
                    prev.changes.delta(k, id),
                    prev.row(id),
                    k,
                    cs,
                ) == self.changes.delta(k, id),
            forall|k: usize| #![trigger self.changes.delta(k, id)]
                match self.changes.delta(k, id) {
                    Some(ChangeKind::Added) => folded.has_key(k),
                    Some(ChangeKind::Modified(_)) => folded.has_key(k),
                    Some(ChangeKind::Removed(_)) => !folded.has_key(k),
                    None => true,
                },
            forall|e: usize| #[trigger]
                self.changes.references(e) ==> prev.changes.references(e) || e == id,
            self.archetypes.arch_count() <= usize::MAX,
        ensures
            self.wf(),
            forall|e: usize| #[trigger] self.live(e) <==> prev.live(e),
            self.others_unchanged(prev, id),
            forall|k: usize| #[trigger]
                self.has(id, k) <==> Self::row_after(prev.row(id), cs).contains_key(k),
            forall|k: usize|
                self.has(id, k) ==> #[trigger] self.comp(id, k) == Self::row_after(
                    prev.row(id),
                    cs,
                )[k],
            forall|k: usize| #[trigger]
                self.delta(k, id) == (if prev.is_tracked(k) {
                    Self::delta_after(prev.delta(k, id), prev.row(id), k, cs)
                } else {
                    None::<ChangeKind<C>>
                }),
    {
        // liveness
        assert forall|e: usize| #[trigger] self.live(e) <==> prev.live(e) by {
            if e == id {
                assert(self.archetypes.spec_has_entity(id));
                assert(self.live(id));
                assert(prev.live(id));
            } else {
                assert(self.archetypes.spec_has_entity(e) <==> routed.spec_has_entity(e));
                assert(routed.spec_has_entity(e) <==> shrunk.archetypes.spec_has_entity(e));
                assert(shrunk.live(e) <==> prev.live(e));
            }
        }
        // other entities keep their components
        assert forall|e: usize, k: usize| #![trigger self.has(e, k)]
            e != id implies (self.has(e, k) <==> prev.has(e, k)) && (prev.has(e, k)
            ==> self.comp(e, k) == prev.comp(e, k)) by {
            if prev.live(e) {
                assert(shrunk.live(e));
                shrunk.archetypes.lemma_arch_of(e);
                let b = shrunk.archetypes.arch_of(e);
                assert(routed.arch(b) == shrunk.archetypes.arch(b));
                assert(self.archetypes.spec_has_entity(e));
                self.archetypes.lemma_arch_of(e);
                let b2 = self.archetypes.arch_of(e);
                if b2 != a2 {
                    assert(self.archetypes.arch(b2) == routed.arch(b2));
                    assert(shrunk.archetypes.arch(b2).has_entity(e));
                    assert(b2 == b);
                } else if b != a2 {
                    assert(self.archetypes.arch(b) == routed.arch(b));
                    assert(self.archetypes.arch(b).has_entity(e));
                    assert(b == b2);
                }
                assert(b2 == b);
                assert(self.archetypes.arch(b).sig() == shrunk.archetypes.arch(b).sig()) by {
                    if b == a2 {
                        assert(self.archetypes.arch(a2).sig() == routed.arch(a2).sig());
                        if b < shrunk.archetypes.arch_count() {
                            assert(routed.arch(b) == shrunk.archetypes.arch(b));
                        }
                    } else {
                        assert(self.archetypes.arch(b) == routed.arch(b));
                    }
                }
                assert(b < shrunk.archetypes.arch_count()) by {
                    shrunk.archetypes.lemma_arch_of(e);
                }
                assert(shrunk.has(e, k) <==> prev.has(e, k));
                assert(shrunk.has(e, k) <==> self.has(e, k)) by {
                    assert(shrunk.archetypes.arch_of(e) == b);
                }
                if prev.has(e, k) {
                    assert(shrunk.comp(e, k) == prev.comp(e, k));
                    if b == a2 {
                        assert(self.archetypes.arch(a2).others_unchanged(routed.arch(a2), id));
                        assert(routed.arch(b).has_entity(e) && routed.arch(b).has_type(k));
                        assert(self.archetypes.arch(b).comp(e, k) == routed.arch(b).comp(e, k));
                    } else {
                        assert(self.archetypes.arch(b) == routed.arch(b));
                    }
                }
            } else {
                assert(!shrunk.live(e));
                assert(!self.live(e));
            }
        }
        assert(self.others_unchanged(prev, id));
        // the entity's new row
        assert forall|k: usize| #[trigger]
            self.has(id, k) <==> Self::row_after(prev.row(id), cs).contains_key(k) by {
            assert(self.archetypes.arch_of(id) == a2);
            assert(self.archetypes.arch(a2).sig() == routed.arch(a2).sig());
            assert(routed.arch(a2).has_type(k) <==> folded.has_key(k));
            assert(folded.contents().contains_key(k) <==> folded.has_key(k));
        }
        assert forall|k: usize|
            self.has(id, k) implies #[trigger] self.comp(id, k) == Self::row_after(
            prev.row(id),
            cs,
        )[k] by {
            assert(self.archetypes.arch_of(id) == a2);
            assert(folded.has_key(k));
            assert(self.archetypes.arch(a2).comp(id, k) == folded.spec_get(k));
            assert(folded.contents()[k] == folded.spec_get(k));
        }
        // the entity's deltas
        assert forall|k: usize| #[trigger]
            self.delta(k, id) == (if prev.is_tracked(k) {
                Self::delta_after(prev.delta(k, id), prev.row(id), k, cs)
            } else {
                None::<ChangeKind<C>>
            }) by {
            if prev.changes.is_tracked(k) {
            } else {
                assert(!self.changes.is_tracked(k));
            }
        }
        // invariant restoration
        assert forall|a3: int, j: int|
            #![trigger self.archetypes.arch(a3).sig()[j]]
            0 <= a3 < self.archetypes.arch_count() && 0 <= j < self.archetypes.arch(
                a3,
            ).sig().len() implies self.archetypes.arch(a3).sig()[j] < usize::MAX by {
            if a3 == a2 {
                assert(self.archetypes.arch(a3).sig() == routed.arch(a3).sig());
            } else {
                assert(self.archetypes.arch(a3) == routed.arch(a3));
            }
        }
        assert(self.resources.wf());
        assert(self.storage_wf());
        assert forall|e: usize| #[trigger] self.live(e) implies e < self.entities.next() by {
            assert(prev.live(e));
        }
        assert forall|i: int| 0 <= i < self.entities.free().len() implies (
        #[trigger] self.entities.free()[i]) < self.entities.next() && !self.live(
            self.entities.free()[i],
        ) && !self.changes.references(self.entities.free()[i]) && !self.despawned@.contains(
            self.entities.free()[i],
        ) by {
            let f = prev.entities.free()[i];
            assert(!prev.live(f));
            assert(f != id);
            assert(!self.live(f));
            assert(!self.changes.references(f)) by {
                if self.changes.references(f) {
                    assert(prev.changes.references(f));
                }
            }
        }
        assert forall|i: int| 0 <= i < self.despawned@.len() implies (
        #[trigger] self.despawned@[i]) < self.entities.next() && !self.live(self.despawned@[i])
            by {
            let d = prev.despawned@[i];
            assert(!prev.live(d));
            assert(d != id);
            assert(!self.live(d));
        }
        assert forall|e: usize| #[trigger] self.changes.references(e) implies e
            < self.entities.next() by {
            if e == id {
                assert(prev.live(id));
            } else {
                assert(prev.changes.references(e));
            }
        }
        assert(self.ids_wf());
        assert forall|k: usize, e: usize| #![trigger self.delta(k, e)] true implies match self.delta(
            k,
            e,
        ) {
            Some(ChangeKind::Added) => self.has(e, k),
            Some(ChangeKind::Modified(_)) => self.has(e, k),
            Some(ChangeKind::Removed(_)) => !self.has(e, k),
            None => true,
        } by {
            if e == id {
                assert(self.delta(k, e) == self.changes.delta(k, id));
                assert(self.has(id, k) <==> folded.has_key(k)) by {
                    assert(self.archetypes.arch_of(id) == a2);
                    assert(self.archetypes.arch(a2).sig() == routed.arch(a2).sig());
                }
            } else {
                assert(self.delta(k, e) == prev.delta(k, e));
                assert(self.has(e, k) <==> prev.has(e, k));
            }
        }
    }
}

impl<C> World<C> {
    /// Folding a list of insertions with pairwise distinct keys sets
    /// exactly those keys and touches nothing else.
    proof fn lemma_row_after_inserts(row: Map<usize, C>, cs: Seq<ComponentChange<C>>)
        requires
            forall|i: int| 0 <= i < cs.len() ==> (#[trigger] cs[i]) is Insert,
            forall|i: int, j: int|
                0 <= i < cs.len() && 0 <= j < cs.len() && i != j ==> (#[trigger] cs[i]).key() != (
                #[trigger] cs[j]).key(),
        ensures
            forall|k: usize| #[trigger]
                Self::row_after(row, cs).contains_key(k) <==> row.contains_key(k) || (exists|
                    i: int,
                | 0 <= i < cs.len() && (#[trigger] cs[i]).key() == k),
            forall|i: int|
                0 <= i < cs.len() ==> ((#[trigger] cs[i]) matches ComponentChange::Insert(k, c)
                    && Self::row_after(row, cs)[k] == c),
            forall|k: usize|
                !(exists|i: int| 0 <= i < cs.len() && (#[trigger] cs[i]).key() == k)
                    && row.contains_key(k) ==> #[trigger] Self::row_after(row, cs)[k] == row[k],
        decreases cs.len(),
    {
        if cs.len() > 0 {
            let op = cs[0];
            let row2 = Self::row_step(row, op);
            let rest = cs.skip(1);
            assert forall|i: int, j: int|
                0 <= i < rest.len() && 0 <= j < rest.len() && i != j implies (
            #[trigger] rest[i]).key() != (#[trigger] rest[j]).key() by {
                assert(rest[i] == cs[i + 1] && rest[j] == cs[j + 1]);
            }
            assert forall|i: int| 0 <= i < rest.len() implies (#[trigger] rest[i]) is Insert by {
                assert(rest[i] == cs[i + 1]);
            }
            Self::lemma_row_after_inserts(row2, rest);
            assert(Self::row_after(row, cs) == Self::row_after(row2, rest));
            match op {
                ComponentChange::Insert(k0, c0) => {
                    assert forall|k: usize| #[trigger]
                        Self::row_after(row, cs).contains_key(k) <==> row.contains_key(k) || (
                    exists|i: int| 0 <= i < cs.len() && (#[trigger] cs[i]).key() == k) by {
                        if Self::row_after(row, cs).contains_key(k) {
                            if row2.contains_key(k) && !row.contains_key(k) && k != k0 {
                            }
                            if !row2.contains_key(k) {
                                let i = choose|i: int|
                                    0 <= i < rest.len() && (#[trigger] rest[i]).key() == k;
                                assert(rest[i] == cs[i + 1]);
                                assert(cs[i + 1].key() == k);
                            } else if !row.contains_key(k) {
                                if k == k0 {
                                    assert(cs[0].key() == k);
                                } else {
                                }
                            }
                        }
                        if row.contains_key(k) {
                            assert(row2.contains_key(k));
                        }
                        if exists|i: int| 0 <= i < cs.len() && (#[trigger] cs[i]).key() == k {
                            let i = choose|i: int|
                                0 <= i < cs.len() && (#[trigger] cs[i]).key() == k;
                            if i == 0 {
                                assert(row2.contains_key(k));
                            } else {
                                assert(rest[i - 1] == cs[i]);
                                assert(rest[i - 1].key() == k);
                            }
                        }
                    }
                    assert forall|i: int| 0 <= i < cs.len() implies ((
                    #[trigger] cs[i]) matches ComponentChange::Insert(k, c) && Self::row_after(
                        row,
                        cs,
                    )[k] == c) by {
                        if i == 0 {
                            assert(!(exists|j: int|
                                0 <= j < rest.len() && (#[trigger] rest[j]).key() == k0)) by {
                                if exists|j: int|
                                    0 <= j < rest.len() && (#[trigger] rest[j]).key() == k0 {
                                    let j = choose|j: int|
                                        0 <= j < rest.len() && (#[trigger] rest[j]).key() == k0;
                                    assert(rest[j] == cs[j + 1]);
                                    assert(cs[j + 1].key() == k0 && cs[0].key() == k0);
                                }
                            }
                            assert(row2.contains_key(k0) && row2[k0] == c0);
                        } else {
                            assert(rest[i - 1] == cs[i]);
                            assert((rest[i - 1] matches ComponentChange::Insert(k, c)
                                && Self::row_after(row2, rest)[k] == c));
                        }
                    }
                    assert forall|k: usize|
                        !(exists|i: int| 0 <= i < cs.len() && (#[trigger] cs[i]).key() == k)
                            && row.contains_key(k) implies #[trigger] Self::row_after(row, cs)[k]
                        == row[k] by {
                        assert(k != k0) by {
                            if k == k0 {
                                assert(cs[0].key() == k);
                            }
                        }
                        assert(row2.contains_key(k) && row2[k] == row[k]);
                        assert(!(exists|i: int|
                            0 <= i < rest.len() && (#[trigger] rest[i]).key() == k)) by {
                            if exists|i: int|
                                0 <= i < rest.len() && (#[trigger] rest[i]).key() == k {
                                let i = choose|i: int|
                                    0 <= i < rest.len() && (#[trigger] rest[i]).key() == k;
                                assert(rest[i] == cs[i + 1]);
                                assert(cs[i + 1].key() == k);
                            }
                        }
                        assert(Self::row_after(row2, rest)[k] == row2[k]);
                    }
                },
                ComponentChange::Remove(_) => {
                    assert(false);
                },
            }
        }
    }

    /// Folding a list of removals drops exactly those keys and touches
    /// nothing else.
    proof fn lemma_row_after_removes(row: Map<usize, C>, cs: Seq<ComponentChange<C>>)
        requires
            forall|i: int| 0 <= i < cs.len() ==> (#[trigger] cs[i]) is Remove,
        ensures
            forall|k: usize| #[trigger]
                Self::row_after(row, cs).contains_key(k) <==> row.contains_key(k) && !(exists|
                    i: int,
                | 0 <= i < cs.len() && (#[trigger] cs[i]).key() == k),
            forall|k: usize|
                #[trigger] Self::row_after(row, cs).contains_key(k) ==> Self::row_after(row, cs)[k]
                    == row[k],
        decreases cs.len(),
    {
        if cs.len() > 0 {
            let op = cs[0];
            let row2 = Self::row_step(row, op);
            let rest = cs.skip(1);
            assert forall|i: int| 0 <= i < rest.len() implies (#[trigger] rest[i]) is Remove by {
                assert(rest[i] == cs[i + 1]);
            }
            Self::lemma_row_after_removes(row2, rest);
            assert(Self::row_after(row, cs) == Self::row_after(row2, rest));
            match op {
                ComponentChange::Remove(k0) => {
                    assert forall|k: usize| #[trigger]
                        Self::row_after(row, cs).contains_key(k) <==> row.contains_key(k) && !(
                    exists|i: int| 0 <= i < cs.len() && (#[trigger] cs[i]).key() == k) by {
                        if Self::row_after(row, cs).contains_key(k) {
                            assert(row2.contains_key(k));
                            assert(k != k0);
                            if exists|i: int| 0 <= i < cs.len() && (#[trigger] cs[i]).key() == k {
                                let i = choose|i: int|
                                    0 <= i < cs.len() && (#[trigger] cs[i]).key() == k;
                                assert(i != 0);
                                assert(rest[i - 1] == cs[i]);
                                assert(rest[i - 1].key() == k);
                            }
                        }
                        if row.contains_key(k) && !(exists|i: int|
                            0 <= i < cs.len() && (#[trigger] cs[i]).key() == k) {
                            assert(k != k0) by {
                                if k == k0 {
                                    assert(cs[0].key() == k);
                                }
                            }
                            assert(row2.contains_key(k));
                            assert(!(exists|i: int|
                                0 <= i < rest.len() && (#[trigger] rest[i]).key() == k)) by {
                                if exists|i: int|
                                    0 <= i < rest.len() && (#[trigger] rest[i]).key() == k {
                                    let i = choose|i: int|
                                        0 <= i < rest.len() && (#[trigger] rest[i]).key() == k;
                                    assert(rest[i] == cs[i + 1]);
                                    assert(cs[i + 1].key() == k);
                                }
                            }
                        }
                    }
                },
                ComponentChange::Insert(_, _) => {
                    assert(false);
                },
            }
        }
    }

    /// Adds (or replaces) the bundle's components on an existing entity:
    /// afterwards the entity carries every bundle component with exactly
    /// the tendered value, and all its other components are unchanged and
    /// still reachable.  Dead entities are untouched.
    pub fn insert(&mut self, id: EntityId, bundle: ComponentBundle<C>)
        requires
            old(self).wf(),
            bundle.wf(),
            forall|i: int| 0 <= i < bundle@.len() ==> (#[trigger] bundle@[i]).0 < usize::MAX,
        ensures
            final(self).wf(),
            forall|e: usize| #[trigger] final(self).live(e) <==> old(self).live(e),
            final(self).others_unchanged(*old(self), id@),
            forall|k: usize| #[trigger] final(self).is_tracked(k) <==> old(self).is_tracked(k),
            forall|k: usize, e: usize|
                e != id@ ==> #[trigger] final(self).delta(k, e) == old(self).delta(k, e),
            forall|k: usize| #[trigger] final(self).res_has(k) <==> old(self).res_has(k),
            forall|k: usize| old(self).res_has(k) ==> #[trigger] final(self).res(k) == old(
                self,
            ).res(k),
            old(self).live(id@) ==> {
                &&& forall|k: usize| #[trigger]
                    bundle.has_key(k) ==> final(self).has(id@, k) && final(self).comp(id@, k)
                        == bundle.spec_get(k)
                &&& forall|k: usize|
                    !bundle.has_key(k) ==> (#[trigger] final(self).has(id@, k) <==> old(self).has(
                        id@,
                        k,
                    )) && (old(self).has(id@, k) ==> final(self).comp(id@, k) == old(self).comp(
                        id@,
                        k,
                    ))
                &&& forall|k: usize| #[trigger]
                    final(self).delta(k, id@) == (if old(self).is_tracked(k) {
                        Self::insert_transition(
                            old(self).delta(k, id@),
                            old(self).row(id@),
                            k,
                            bundle,
                        )
                    } else {
                        None::<ChangeKind<C>>
                    })
            },
            !old(self).live(id@) ==> (forall|k: usize| #[trigger]
                final(self).has(id@, k) <==> old(self).has(id@, k)) && (forall|k: usize|
                #[trigger] final(self).delta(k, id@) == old(self).delta(k, id@)),
    {
        let ghost prev = *old(self);
        let mut ops: Vec<ComponentChange<C>> = Vec::new();
        let mut entries = bundle.into_entries();
        let ghost b0 = bundle@;
        let ghost mut t: int = 0;
        while entries.len() > 0
            invariant
                0 <= t <= b0.len(),
                entries@ == b0.skip(t),
                forall|i: int, j: int|
                    0 <= i < b0.len() && 0 <= j < b0.len() && i != j ==> (#[trigger] b0[i]).0 != (
                    #[trigger] b0[j]).0,
                forall|i: int| 0 <= i < b0.len() ==> (#[trigger] b0[i]).0 < usize::MAX,
                ops@.len() == t,
                forall|i: int|
                    0 <= i < t ==> (#[trigger] ops@[i]) == ComponentChange::Insert(
                        b0[i].0,
                        b0[i].1,
                    ),
            decreases entries@.len(),
        {
            let entry = entries.remove(0);
            proof {
                assert(entries@ =~= b0.skip(t + 1));
                assert(b0.skip(t)[0] == b0[t]);
                assert(entry == b0[t]);
            }
            ops.push(ComponentChange::Insert(entry.0, entry.1));
            proof {
                t = t + 1;
            }
        }
        proof {
            assert forall|i: int| 0 <= i < ops@.len() implies (#[trigger] ops@[i]).key()
                < usize::MAX by {
                assert(ops@[i] == ComponentChange::<C>::Insert(b0[i].0, b0[i].1));
            }
        }
        let ghost cs = ops@;
        self.modify(id, ops);
        proof {
            if prev.live(id@) {
                Self::lemma_row_after_inserts(prev.row(id@), cs);
                assert forall|k: usize| #[trigger]
                    bundle.has_key(k) implies self.has(id@, k) && self.comp(id@, k)
                    == bundle.spec_get(k) by {
                    let i = choose|i: int| 0 <= i < b0.len() && (#[trigger] b0[i]).0 == k;
                    assert(cs[i].key() == k);
                    assert(Self::row_after(prev.row(id@), cs).contains_key(k));
                    assert((cs[i] matches ComponentChange::Insert(k2, c) && Self::row_after(
                        prev.row(id@),
                        cs,
                    )[k2] == c));
                    bundle.lemma_idx_of(k);
                    assert(bundle.idx_of(k) == i);
                }
                assert forall|k: usize|
                    !bundle.has_key(k) implies (#[trigger] self.has(id@, k) <==> prev.has(
                    id@,
                    k,
                )) && (prev.has(id@, k) ==> self.comp(id@, k) == prev.comp(id@, k)) by {
                    assert(!(exists|i: int| 0 <= i < cs.len() && (#[trigger] cs[i]).key() == k))
                        by {
                        if exists|i: int| 0 <= i < cs.len() && (#[trigger] cs[i]).key() == k {
                            let i = choose|i: int|
                                0 <= i < cs.len() && (#[trigger] cs[i]).key() == k;
                            assert(b0[i].0 == k);
                        }
                    }
                    assert(prev.row(id@).contains_key(k) <==> prev.has(id@, k));
                    if prev.has(id@, k) {
                        assert(Self::row_after(prev.row(id@), cs)[k] == prev.row(id@)[k]);
                        assert(prev.row(id@)[k] == prev.comp(id@, k));
                    }
                }
                assert forall|i: int| 0 <= i < cs.len() implies (#[trigger] cs[i]) is Insert by {
                    assert(cs[i] == ComponentChange::<C>::Insert(b0[i].0, b0[i].1));
                }
                assert forall|i: int, j: int|
                    0 <= i < cs.len() && 0 <= j < cs.len() && i != j implies (
                #[trigger] cs[i]).key() != (#[trigger] cs[j]).key() by {
                    assert(cs[i].key() == b0[i].0 && cs[j].key() == b0[j].0);
                }
                assert forall|k: usize| #[trigger]
                    self.delta(k, id@) == (if prev.is_tracked(k) {
                        Self::insert_transition(prev.delta(k, id@), prev.row(id@), k, bundle)
                    } else {
                        None::<ChangeKind<C>>
                    }) by {
                    if prev.is_tracked(k) {
                        Self::lemma_delta_after_inserts(
                            prev.delta(k, id@),
                            prev.row(id@),
                            k,
                            cs,
                        );
                        assert((exists|i: int|
                            0 <= i < cs.len() && (#[trigger] cs[i]).key() == k)
                            == bundle.has_key(k)) by {
                            if exists|i: int|
                                0 <= i < cs.len() && (#[trigger] cs[i]).key() == k {
                                let i = choose|i: int|
                                    0 <= i < cs.len() && (#[trigger] cs[i]).key() == k;
                                assert(b0[i].0 == k);
                            }
                            if bundle.has_key(k) {
                                let i = choose|i: int|
                                    0 <= i < b0.len() && (#[trigger] b0[i]).0 == k;
                                assert(cs[i].key() == k);
                            }
                        }
                        assert(prev.row(id@).contains_key(k) <==> prev.has(id@, k));
                        if prev.has(id@, k) {
                            assert(prev.row(id@)[k] == prev.comp(id@, k));
                        }
                    }
                }
            }
        }
    }

    /// Drops the components under the given type keys from an existing
    /// entity; keys it does not carry are ignored.  Dead entities are
    /// untouched.
    pub fn remove(&mut self, id: EntityId, keys: &Vec<usize>)
        requires
            old(self).wf(),
            forall|i: int| 0 <= i < keys@.len() ==> (#[trigger] keys@[i]) < usize::MAX,
        ensures
            final(self).wf(),
            forall|e: usize| #[trigger] final(self).live(e) <==> old(self).live(e),
            final(self).others_unchanged(*old(self), id@),
            forall|k: usize| #[trigger] final(self).is_tracked(k) <==> old(self).is_tracked(k),
            forall|k: usize, e: usize|
                e != id@ ==> #[trigger] final(self).delta(k, e) == old(self).delta(k, e),
            forall|k: usize| #[trigger] final(self).res_has(k) <==> old(self).res_has(k),
            forall|k: usize| old(self).res_has(k) ==> #[trigger] final(self).res(k) == old(
                self,
            ).res(k),
            old(self).live(id@) ==> {
                &&& forall|k: usize| #[trigger]
                    final(self).has(id@, k) <==> old(self).has(id@, k) && !keys@.contains(k)
                &&& forall|k: usize|
                    final(self).has(id@, k) ==> #[trigger] final(self).comp(id@, k) == old(
                        self,
                    ).comp(id@, k)
                &&& forall|k: usize| #[trigger]
                    final(self).delta(k, id@) == (if old(self).is_tracked(k) {
                        Self::remove_keys_transition(
                            old(self).delta(k, id@),
                            old(self).row(id@),
                            k,
                            keys@,
                        )
                    } else {
                        None::<ChangeKind<C>>
                    })
            },
            !old(self).live(id@) ==> (forall|k: usize| #[trigger]
                final(self).has(id@, k) <==> old(self).has(id@, k)) && (forall|k: usize|
                #[trigger] final(self).delta(k, id@) == old(self).delta(k, id@)),
    {
        let ghost prev = *old(self);
        let mut ops: Vec<ComponentChange<C>> = Vec::new();
        let mut i: usize = 0;
        while i < keys.len()
            invariant
                forall|j: int| 0 <= j < keys@.len() ==> (#[trigger] keys@[j]) < usize::MAX,
                i <= keys@.len(),
                ops@.len() == i,
                forall|j: int|
                    0 <= j < i ==> (#[trigger] ops@[j]) == ComponentChange::<C>::Remove(keys@[j]),
            decreases keys@.len() - i,
        {
            ops.push(ComponentChange::Remove(keys[i]));
            i = i + 1;
        }
        proof {
            assert forall|j: int| 0 <= j < ops@.len() implies (#[trigger] ops@[j]).key()
                < usize::MAX by {
                assert(ops@[j] == ComponentChange::<C>::Remove(keys@[j]));
            }
        }
        let ghost cs = ops@;
        self.modify(id, ops);
        proof {
            if prev.live(id@) {
                assert forall|j: int| 0 <= j < cs.len() implies (#[trigger] cs[j]) is Remove by {
                    assert(cs[j] == ComponentChange::<C>::Remove(keys@[j]));
                }
                Self::lemma_row_after_removes(prev.row(id@), cs);
                assert forall|k: usize| #[trigger]
                    self.has(id@, k) <==> prev.has(id@, k) && !keys@.contains(k) by {
                    assert(prev.row(id@).contains_key(k) <==> prev.has(id@, k));
                    assert((exists|j: int| 0 <= j < cs.len() && (#[trigger] cs[j]).key() == k)
                        <==> keys@.contains(k)) by {
                        if exists|j: int| 0 <= j < cs.len() && (#[trigger] cs[j]).key() == k {
                            let j = choose|j: int|
                                0 <= j < cs.len() && (#[trigger] cs[j]).key() == k;
                            assert(keys@[j] == k);
                        }
                        if keys@.contains(k) {
                            let j = choose|j: int| 0 <= j < keys@.len() && keys@[j] == k;
                            assert(cs[j].key() == k);
                        }
                    }
                }
                assert forall|k: usize|
                    self.has(id@, k) implies #[trigger] self.comp(id@, k) == prev.comp(
                    id@,
                    k,
                ) by {
                    assert(Self::row_after(prev.row(id@), cs).contains_key(k));
                    assert(prev.row(id@)[k] == prev.comp(id@, k));
                }
                assert forall|k: usize| #[trigger]
                    self.delta(k, id@) == (if prev.is_tracked(k) {
                        Self::remove_keys_transition(prev.delta(k, id@), prev.row(id@), k, keys@)
                    } else {
                        None::<ChangeKind<C>>
                    }) by {
                    if prev.is_tracked(k) {
                        Self::lemma_delta_after_removes(
                            prev.delta(k, id@),
                            prev.row(id@),
                            k,
                            cs,
                        );
                        assert((exists|j: int|
                            0 <= j < cs.len() && (#[trigger] cs[j]).key() == k)
                            == keys@.contains(k)) by {
                            if exists|j: int|
                                0 <= j < cs.len() && (#[trigger] cs[j]).key() == k {
                                let j = choose|j: int|
                                    0 <= j < cs.len() && (#[trigger] cs[j]).key() == k;
                                assert(keys@[j] == k);
                            }
                            if keys@.contains(k) {
                                let j = choose|j: int| 0 <= j < keys@.len() && keys@[j] == k;
                                assert(cs[j].key() == k);
                            }
                        }
                        assert(prev.row(id@).contains_key(k) <==> prev.has(id@, k));
                        if prev.has(id@, k) {
                            assert(prev.row(id@)[k] == prev.comp(id@, k));
                        }
                    }
                }
            }
        }
    }
}

impl<C> World<C> {
    /// The canonical result of a query: matching archetypes in slot order,
    /// their member entities in row order.
    pub closed spec fn query_view(&self, req: Seq<usize>, excl: Seq<usize>) -> Seq<usize> {
        Archetypes::flat_members(
            self.archetypes.archs(),
            self.archetypes.match_indices(req, excl),
        )
    }

    /// A registry edit that keeps the archetype list keeps every
    /// observable of the world.
    proof fn lemma_cache_only(&self, prev: Self)
        requires
            prev.wf(),
            self.archetypes.wf(),
            self.archetypes.archs() == prev.archetypes.archs(),
            self.entities == prev.entities,
            self.resources == prev.resources,
            self.changes == prev.changes,
            self.despawned == prev.despawned,
        ensures
            self.wf(),
            forall|e: usize| #[trigger] self.live(e) <==> prev.live(e),
            forall|e: usize, k: usize| #![trigger self.has(e, k)]
                (self.has(e, k) <==> prev.has(e, k)) && (prev.has(e, k) ==> self.comp(e, k)
                    == prev.comp(e, k)),
            forall|req: Seq<usize>, excl: Seq<usize>| #[trigger]
                self.query_view(req, excl) == prev.query_view(req, excl),
    {
        assert(self.archetypes.arch_count() == prev.archetypes.arch_count());
        assert forall|e: usize| #[trigger]
            self.archetypes.spec_has_entity(e) == prev.archetypes.spec_has_entity(e) by {
            if self.archetypes.spec_has_entity(e) {
                let a = choose|a: int|
                    0 <= a < self.archetypes.arch_count() && (#[trigger] self.archetypes.arch(
                        a,
                    )).has_entity(e);
                assert(prev.archetypes.arch(a) == self.archetypes.arch(a));
                assert(prev.archetypes.arch(a).has_entity(e));
            }
            if prev.archetypes.spec_has_entity(e) {
                let a = choose|a: int|
                    0 <= a < prev.archetypes.arch_count() && (#[trigger] prev.archetypes.arch(
                        a,
                    )).has_entity(e);
                assert(self.archetypes.arch(a) == prev.archetypes.arch(a));
                assert(self.archetypes.arch(a).has_entity(e));
            }
        }
        assert forall|e: usize| #[trigger] self.live(e) <==> prev.live(e) by {}
        assert forall|e: usize, k: usize| #![trigger self.has(e, k)]
            true implies (self.has(e, k) <==> prev.has(e, k)) && (prev.has(e, k) ==> self.comp(
            e,
            k,
        ) == prev.comp(e, k)) by {
            if prev.live(e) {
                prev.archetypes.lemma_arch_of(e);
                let a = prev.archetypes.arch_of(e);
                assert(self.archetypes.arch(a) == prev.archetypes.arch(a));
                assert(self.archetypes.arch(a).has_entity(e));
                self.archetypes.lemma_arch_of(e);
                assert(self.archetypes.arch_of(e) == a);
            }
        }
        assert forall|a2: int, j: int|
            #![trigger self.archetypes.arch(a2).sig()[j]]
            0 <= a2 < self.archetypes.arch_count() && 0 <= j < self.archetypes.arch(
                a2,
            ).sig().len() implies self.archetypes.arch(a2).sig()[j] < usize::MAX by {
            assert(self.archetypes.arch(a2) == prev.archetypes.arch(a2));
        }
        assert(self.storage_wf());
        assert(self.ids_wf());
        assert forall|k: usize, e: usize| #![trigger self.delta(k, e)] true implies match self.delta(
            k,
            e,
        ) {
            Some(ChangeKind::Added) => self.has(e, k),
            Some(ChangeKind::Modified(_)) => self.has(e, k),
            Some(ChangeKind::Removed(_)) => !self.has(e, k),
            None => true,
        } by {
            assert(self.delta(k, e) == prev.delta(k, e));
            assert(self.has(e, k) <==> prev.has(e, k));
        }
    }

    /// Lists the entities matching the query: every entity whose signature
    /// carries all required keys and none of the excluded ones, in
    /// archetype order then row order.  The result is a pure function of
    /// the storage, so an unchanged world answers an unchanged list.
    pub fn query_selector(&mut self, required: Vec<usize>, excluded: Vec<usize>) -> (r: Vec<
        EntityId,
    >)
        requires
            old(self).wf(),
        ensures
            final(self).wf(),
            forall|e: usize| #[trigger] final(self).live(e) <==> old(self).live(e),
            forall|e: usize, k: usize| #![trigger final(self).has(e, k)]
                (final(self).has(e, k) <==> old(self).has(e, k)) && (old(self).has(e, k)
                    ==> final(self).comp(e, k) == old(self).comp(e, k)),
            forall|k: usize| #[trigger] final(self).is_tracked(k) <==> old(self).is_tracked(k),
            forall|k: usize, e: usize| #[trigger]
                final(self).delta(k, e) == old(self).delta(k, e),
            forall|k: usize| #[trigger] final(self).res_has(k) <==> old(self).res_has(k),
            forall|k: usize| old(self).res_has(k) ==> #[trigger] final(self).res(k) == old(
                self,
            ).res(k),
            forall|req: Seq<usize>, excl: Seq<usize>| #[trigger]
                final(self).query_view(req, excl) == old(self).query_view(req, excl),
            r@.len() == old(self).query_view(required@, excluded@).len(),
            forall|i: int|
                0 <= i < r@.len() ==> (#[trigger] r@[i])@ == old(self).query_view(
                    required@,
                    excluded@,
                )[i],
    {
        let ghost prev = *old(self);
        let r = self.archetypes.query_entities(Query::new(required), Query::new(excluded));
        proof {
            self.lemma_cache_only(prev);
        }
        r
    }

    /// Lists the entities matching the query (the id-list form of a typed
    /// scan; per-entity reads go through `get_component`).
    pub fn query(&mut self, required: Vec<usize>, excluded: Vec<usize>) -> (r: Vec<EntityId>)
        requires
            old(self).wf(),
        ensures
            final(self).wf(),
            forall|e: usize| #[trigger] final(self).live(e) <==> old(self).live(e),
            forall|e: usize, k: usize| #![trigger final(self).has(e, k)]
                (final(self).has(e, k) <==> old(self).has(e, k)) && (old(self).has(e, k)
                    ==> final(self).comp(e, k) == old(self).comp(e, k)),
            forall|k: usize| #[trigger] final(self).is_tracked(k) <==> old(self).is_tracked(k),
            forall|k: usize, e: usize| #[trigger]
                final(self).delta(k, e) == old(self).delta(k, e),
            forall|k: usize| #[trigger] final(self).res_has(k) <==> old(self).res_has(k),
            forall|k: usize| old(self).res_has(k) ==> #[trigger] final(self).res(k) == old(
                self,
            ).res(k),
            forall|req: Seq<usize>, excl: Seq<usize>| #[trigger]
                final(self).query_view(req, excl) == old(self).query_view(req, excl),
            r@.len() == old(self).query_view(required@, excluded@).len(),
            forall|i: int|
                0 <= i < r@.len() ==> (#[trigger] r@[i])@ == old(self).query_view(
                    required@,
                    excluded@,
                )[i],
    {
        self.query_selector(required, excluded)
    }

    /// Query soundness and completeness: an entity appears in a query's
    /// view exactly when it is alive, carries every required key, and
    /// carries no excluded key.  Together with the view being a pure
    /// function of storage, repeating a query with no intervening
    /// structural edit yields the same entities in the same order.
    pub proof fn lemma_query_matches(&self, req: Seq<usize>, excl: Seq<usize>, e: usize)
        requires
            self.wf(),
        ensures
            self.query_view(req, excl).contains(e) <==> self.live(e) && (forall|k: usize|
                req.contains(k) ==> #[trigger] self.has(e, k)) && (forall|k: usize|
                excl.contains(k) ==> !(#[trigger] self.has(e, k))),
    {
        let archs = self.archetypes.archs();
        let idxs = self.archetypes.match_indices(req, excl);
        Archetypes::lemma_match_below(archs, req, excl, self.archetypes.arch_count());
        assert forall|t: int| 0 <= t < idxs.len() implies (#[trigger] idxs[t] as int)
            < archs.len() by {}
        Archetypes::lemma_flat_contains(archs, idxs, e);
        if self.query_view(req, excl).contains(e) {
            let t = choose|t: int|
                0 <= t < idxs.len() && archs[#[trigger] idxs[t] as int].members().contains(e);
            let a = idxs[t] as int;
            self.archetypes.arch(a).lemma_members_has(e);
            assert(self.archetypes.arch(a).has_entity(e));
            assert(self.live(e));
            self.archetypes.lemma_arch_of(e);
            assert(self.archetypes.arch_of(e) == a);
            assert(crate::archetypes::sig_matches(self.archetypes.arch(a).sig(), req, excl));
            assert forall|k: usize| req.contains(k) implies #[trigger] self.has(e, k) by {
                assert(self.archetypes.arch(a).sig().contains(k));
            }
            assert forall|k: usize| excl.contains(k) implies !(#[trigger] self.has(e, k)) by {
                assert(!self.archetypes.arch(a).sig().contains(k));
            }
        }
        if self.live(e) && (forall|k: usize| req.contains(k) ==> #[trigger] self.has(e, k)) && (
        forall|k: usize| excl.contains(k) ==> !(#[trigger] self.has(e, k))) {
            self.archetypes.lemma_arch_of(e);
            let a = self.archetypes.arch_of(e);
            assert(crate::archetypes::sig_matches(self.archetypes.arch(a).sig(), req, excl)) by {
                assert forall|k: usize| req.contains(k) implies #[trigger] self.archetypes.arch(
                    a,
                ).sig().contains(k) by {
                    assert(self.has(e, k));
                }
                assert forall|k: usize|
                    excl.contains(k) implies !(#[trigger] self.archetypes.arch(a).sig().contains(
                    k,
                )) by {
                    assert(!self.has(e, k));
                }
            }
            assert(idxs.contains(a as usize));
            let t = choose|t: int| 0 <= t < idxs.len() && idxs[t] == a as usize;
            self.archetypes.arch(a).lemma_members_has(e);
            assert(self.archetypes.arch(a).members().contains(e));
            assert(idxs[t] as int == a);
            assert(archs[idxs[t] as int].members().contains(e));
        }
    }

    /// A query yields each matching entity at most once: the canonical
    /// view is pairwise distinct, because archetype memberships are
    /// disjoint and every matching archetype is listed once.
    pub proof fn lemma_query_distinct(&self, req: Seq<usize>, excl: Seq<usize>)
        requires
            self.wf(),
        ensures
            forall|i: int, j: int|
                0 <= i < j < self.query_view(req, excl).len() ==> self.query_view(req, excl)[i]
                    != self.query_view(req, excl)[j],
    {
        let idxs = self.archetypes.match_indices(req, excl);
        Archetypes::lemma_match_below(self.archetypes.archs(), req, excl, self.archetypes.arch_count());
        self.archetypes.lemma_flat_distinct(idxs);
    }

    /// The resource stored under type key `key`, if any.
    pub fn get_resource(&self, key: usize) -> (r: Option<&C>)
        requires
            self.wf(),
        ensures
            match r {
                Some(c) => self.res_has(key) && *c == self.res(key),
                None => !self.res_has(key),
            },
    {
        self.resources.get(key)
    }

    /// Stores a resource under type key `key`, replacing any old value:
    /// the world's global singleton slot for that key.
    pub fn insert_resource(&mut self, key: usize, value: C)
        requires
            old(self).wf(),
            key < usize::MAX,
        ensures
            final(self).wf(),
            final(self).spec_next_id() == old(self).spec_next_id(),
            final(self).res_has(key),
            final(self).res(key) == value,
            forall|k: usize| k != key ==> (#[trigger] final(self).res_has(k) <==> old(
                self,
            ).res_has(k)),
            forall|k: usize|
                k != key && old(self).res_has(k) ==> #[trigger] final(self).res(k) == old(
                    self,
                ).res(k),
            forall|e: usize| #[trigger] final(self).live(e) <==> old(self).live(e),
            forall|e: usize, k: usize| #![trigger final(self).has(e, k)]
                (final(self).has(e, k) <==> old(self).has(e, k)) && (old(self).has(e, k)
                    ==> final(self).comp(e, k) == old(self).comp(e, k)),
            forall|k: usize| #[trigger] final(self).is_tracked(k) <==> old(self).is_tracked(k),
            forall|k: usize, e: usize| #[trigger]
                final(self).delta(k, e) == old(self).delta(k, e),
    {
        let ghost prev = *old(self);
        self.resources.insert(key, value);
        proof {
            assert forall|e: usize| #[trigger] self.live(e) <==> prev.live(e) by {}
            assert forall|e: usize, k: usize| #![trigger self.has(e, k)]
                (self.has(e, k) <==> prev.has(e, k)) && (prev.has(e, k) ==> self.comp(e, k)
                    == prev.comp(e, k)) by {}
            assert forall|k: usize, e: usize| #[trigger]
                self.delta(k, e) == prev.delta(k, e) by {}
            assert(self.storage_wf());
            assert forall|e: usize| #[trigger] self.live(e) implies e < self.entities.next() by {
                assert(prev.live(e));
            }
            assert forall|i: int| 0 <= i < self.entities.free().len() implies (
            #[trigger] self.entities.free()[i]) < self.entities.next() && !self.live(
                self.entities.free()[i],
            ) && !self.changes.references(self.entities.free()[i]) && !self.despawned@.contains(
                self.entities.free()[i],
            ) by {
                assert(!prev.live(prev.entities.free()[i]));
            }
            assert forall|i: int| 0 <= i < self.despawned@.len() implies (
            #[trigger] self.despawned@[i]) < self.entities.next() && !self.live(
                self.despawned@[i],
            ) by {
                assert(!prev.live(prev.despawned@[i]));
            }
            assert(self.ids_wf());
            assert forall|k: usize, e: usize| #![trigger self.delta(k, e)]
                true implies match self.delta(k, e) {
                Some(ChangeKind::Added) => self.has(e, k),
                Some(ChangeKind::Modified(_)) => self.has(e, k),
                Some(ChangeKind::Removed(_)) => !self.has(e, k),
                None => true,
            } by {
                assert(self.delta(k, e) == prev.delta(k, e));
                assert(self.has(e, k) <==> prev.has(e, k));
            }
        }
    }
}

impl<C> World<C> {
    /// The record order of a tracked type key's current generation.
    pub closed spec fn rec_order(&self, k: usize) -> Seq<usize> {
        self.changes.rec(k).order()
    }

    /// Consumes the current generation of changes for `key` and begins the
    /// next (the first call merely begins recording, reporting every
    /// current holder of the key as freshly added).  Until consumed, a
    /// recorded change stays visible; consumption alone clears it.
    pub fn query_changed(&mut self, key: usize) -> (r: QueryChanged<C>)
        requires
            old(self).wf(),
            key < usize::MAX,
        ensures
            final(self).wf(),
            final(self).is_tracked(key),
            forall|e: usize| #[trigger] final(self).delta(key, e) is None,
            forall|k2: usize|
                k2 != key ==> (#[trigger] final(self).is_tracked(k2) <==> old(self).is_tracked(
                    k2,
                )),
            forall|k2: usize, e: usize|
                k2 != key ==> #[trigger] final(self).delta(k2, e) == old(self).delta(k2, e),
            forall|e: usize| #[trigger] final(self).live(e) <==> old(self).live(e),
            forall|e: usize, k: usize| #![trigger final(self).has(e, k)]
                (final(self).has(e, k) <==> old(self).has(e, k)) && (old(self).has(e, k)
                    ==> final(self).comp(e, k) == old(self).comp(e, k)),
            forall|k: usize| #[trigger] final(self).res_has(k) <==> old(self).res_has(k),
            forall|k: usize| old(self).res_has(k) ==> #[trigger] final(self).res(k) == old(
                self,
            ).res(k),
            old(self).is_tracked(key) ==> r@.len() == old(self).rec_order(key).len() && (forall|
                i: int,
            |
                0 <= i < r@.len() ==> (#[trigger] r@[i]).spec_id() == old(self).rec_order(key)[i]
                    && Some(r@[i].spec_kind()) == old(self).delta(
                    key,
                    old(self).rec_order(key)[i],
                )),
            !old(self).is_tracked(key) ==> r@.len() == old(self).query_view(
                seq![key],
                Seq::<usize>::empty(),
            ).len() && (forall|i: int|
                0 <= i < r@.len() ==> (#[trigger] r@[i]).spec_id() == old(self).query_view(
                    seq![key],
                    Seq::<usize>::empty(),
                )[i] && r@[i].spec_kind() is Added),
    {
        let ghost prev = *old(self);
        proof {
            if prev.changes.is_tracked(key) {
                prev.changes.lemma_rec_wf(key);
            }
        }
        let consumed = self.changes.consume_record(key);
        let ghost mid = *self;
        let out = match consumed {
            Some(rec) => QueryChanged::new(rec),
            None => {
                let mut req: Vec<usize> = Vec::new();
                req.push(key);
                proof {
                    assert(req@ =~= seq![key]);
                }
                let ghost before_q = *self;
                let ids = self.archetypes.query_entities(
                    Query::new(req),
                    Query::new(Vec::new()),
                );
                proof {
                    let archs = before_q.archetypes.archs();
                    let idxs = before_q.archetypes.match_indices(seq![key], Seq::empty());
                    Archetypes::lemma_match_below(
                        archs,
                        seq![key],
                        Seq::empty(),
                        before_q.archetypes.arch_count(),
                    );
                    before_q.archetypes.lemma_flat_distinct(idxs);
                    assert forall|i: int, j: int|
                        0 <= i < ids@.len() && 0 <= j < ids@.len() && i != j implies (
                    #[trigger] ids@[i])@ != (#[trigger] ids@[j])@ by {
                        assert(ids@[i]@ == Archetypes::flat_members(archs, idxs)[i]);
                        assert(ids@[j]@ == Archetypes::flat_members(archs, idxs)[j]);
                        if i < j {
                        } else {
                        }
                    }
                    assert forall|i: int| 0 <= i < ids@.len() implies (#[trigger] ids@[i])@
                        < usize::MAX by {
                        let flat = Archetypes::flat_members(archs, idxs);
                        assert(ids@[i]@ == flat[i]);
                        assert(flat.contains(flat[i]));
                        Archetypes::lemma_flat_contains(archs, idxs, flat[i]);
                        let t = choose|t: int|
                            0 <= t < idxs.len() && archs[#[trigger] idxs[t] as int].members().contains(
                                flat[i],
                            );
                        before_q.archetypes.arch(idxs[t] as int).lemma_members_has(flat[i]);
                        assert(before_q.archetypes == prev.archetypes);
                        assert(prev.archetypes.arch(idxs[t] as int).has_entity(flat[i]));
                        assert(prev.live(flat[i]));
                        assert(flat[i] < prev.entities.next());
                    }
                }
                let rec = ChangeRecord::from_ids(&ids);
                let qc = QueryChanged::new(rec);
                proof {
                    let archs = prev.archetypes.archs();
                    let idxs = prev.archetypes.match_indices(seq![key], Seq::<usize>::empty());
                    let flat = Archetypes::flat_members(archs, idxs);
                    assert(before_q.archetypes == prev.archetypes);
                    assert(qc@.len() == flat.len());
                    assert forall|i: int| 0 <= i < qc@.len() implies (#[trigger] qc@[i]).spec_id()
                        == flat[i] && qc@[i].spec_kind() is Added by {
                        assert(qc@[i].spec_id() == rec.order()[i]);
                        assert(rec.order()[i] == ids@[i]@);
                        assert(ids@[i]@ == flat[i]);
                        assert(rec.delta(ids@[i]@) == Some(ChangeKind::<C>::Added)) by {
                            assert(exists|j: int|
                                0 <= j < ids@.len() && (#[trigger] ids@[j])@ == ids@[i]@) by {
                                assert((ids@[i])@ == ids@[i]@);
                            }
                        }
                        assert(Some(qc@[i].spec_kind()) == rec.delta(rec.order()[i]));
                    }
                }
                qc
            },
        };
        proof {
            assert(self.archetypes.archs() == prev.archetypes.archs());
            assert forall|e: usize| #[trigger]
                self.archetypes.spec_has_entity(e) == prev.archetypes.spec_has_entity(e) by {
                if self.archetypes.spec_has_entity(e) {
                    let a = choose|a: int|
                        0 <= a < self.archetypes.arch_count() && (#[trigger] self.archetypes.arch(
                            a,
                        )).has_entity(e);
                    assert(prev.archetypes.arch(a) == self.archetypes.arch(a));
                    assert(prev.archetypes.arch(a).has_entity(e));
                }
                if prev.archetypes.spec_has_entity(e) {
                    let a = choose|a: int|
                        0 <= a < prev.archetypes.arch_count() && (
                        #[trigger] prev.archetypes.arch(a)).has_entity(e);
                    assert(self.archetypes.arch(a) == prev.archetypes.arch(a));
                    assert(self.archetypes.arch(a).has_entity(e));
                }
            }
            assert forall|e: usize, k: usize| #![trigger self.has(e, k)]
                (self.has(e, k) <==> prev.has(e, k)) && (prev.has(e, k) ==> self.comp(e, k)
                    == prev.comp(e, k)) by {
                if prev.live(e) {
                    prev.archetypes.lemma_arch_of(e);
                    let a = prev.archetypes.arch_of(e);
                    assert(self.archetypes.arch(a) == prev.archetypes.arch(a));
                    assert(self.archetypes.arch(a).has_entity(e));
                    self.archetypes.lemma_arch_of(e);
                    assert(self.archetypes.arch_of(e) == a);
                }
            }
            assert forall|a2: int, j: int|
                #![trigger self.archetypes.arch(a2).sig()[j]]
                0 <= a2 < self.archetypes.arch_count() && 0 <= j < self.archetypes.arch(
                    a2,
                ).sig().len() implies self.archetypes.arch(a2).sig()[j] < usize::MAX by {
                assert(self.archetypes.arch(a2) == prev.archetypes.arch(a2));
            }
            assert(self.storage_wf());
            assert forall|e: usize| #[trigger] self.live(e) implies e
                < self.entities.next() by {
                assert(prev.live(e));
            }
            assert forall|i: int| 0 <= i < self.entities.free().len() implies (
            #[trigger] self.entities.free()[i]) < self.entities.next() && !self.live(
                self.entities.free()[i],
            ) && !self.changes.references(self.entities.free()[i]) && !self.despawned@.contains(
                self.entities.free()[i],
            ) by {
                let f = prev.entities.free()[i];
                assert(!prev.live(f));
                assert(!self.live(f));
                assert(!self.changes.references(f)) by {
                    if self.changes.references(f) {
                        assert(prev.changes.references(f));
                    }
                }
            }
            assert forall|i: int| 0 <= i < self.despawned@.len() implies (
            #[trigger] self.despawned@[i]) < self.entities.next() && !self.live(
                self.despawned@[i],
            ) by {
                assert(!prev.live(prev.despawned@[i]));
            }
            assert forall|e: usize| #[trigger] self.changes.references(e) implies e
                < self.entities.next() by {
                assert(prev.changes.references(e));
            }
            assert(self.ids_wf());
            assert forall|k: usize, e: usize| #![trigger self.delta(k, e)]
                true implies match self.delta(k, e) {
                Some(ChangeKind::Added) => self.has(e, k),
                Some(ChangeKind::Modified(_)) => self.has(e, k),
                Some(ChangeKind::Removed(_)) => !self.has(e, k),
                None => true,
            } by {
                if k == key {
                    assert(self.delta(k, e) is None);
                } else {
                    assert(self.delta(k, e) == prev.delta(k, e));
                    assert(self.has(e, k) <==> prev.has(e, k));
                }
            }
            if !prev.is_tracked(key) {
                let archs = prev.archetypes.archs();
                let idxs = prev.archetypes.match_indices(seq![key], Seq::<usize>::empty());
                assert(prev.query_view(seq![key], Seq::<usize>::empty())
                    == Archetypes::flat_members(archs, idxs));
            }
        }
        out
    }
}

impl<C> World<C> {
    /// Drops the resource stored under type key `key`, if any.
    pub fn remove_resource(&mut self, key: usize)
        requires
            old(self).wf(),
        ensures
            final(self).wf(),
            final(self).spec_next_id() == old(self).spec_next_id(),
            !final(self).res_has(key),
            forall|k: usize| k != key ==> (#[trigger] final(self).res_has(k) <==> old(
                self,
            ).res_has(k)),
            forall|k: usize|
                k != key && old(self).res_has(k) ==> #[trigger] final(self).res(k) == old(
                    self,
                ).res(k),
            forall|e: usize| #[trigger] final(self).live(e) <==> old(self).live(e),
            forall|e: usize, k: usize| #![trigger final(self).has(e, k)]
                (final(self).has(e, k) <==> old(self).has(e, k)) && (old(self).has(e, k)
                    ==> final(self).comp(e, k) == old(self).comp(e, k)),
            forall|k: usize| #[trigger] final(self).is_tracked(k) <==> old(self).is_tracked(k),
            forall|k: usize, e: usize| #[trigger]
                final(self).delta(k, e) == old(self).delta(k, e),
    {
        let ghost prev = *old(self);
        let _dropped = self.resources.remove(key);
        proof {
            assert forall|e: usize| #[trigger] self.live(e) <==> prev.live(e) by {}
            assert forall|e: usize, k: usize| #![trigger self.has(e, k)]
                (self.has(e, k) <==> prev.has(e, k)) && (prev.has(e, k) ==> self.comp(e, k)
                    == prev.comp(e, k)) by {}
            assert(self.storage_wf());
            assert forall|e: usize| #[trigger] self.live(e) implies e < self.entities.next() by {
                assert(prev.live(e));
            }
            assert forall|i: int| 0 <= i < self.entities.free().len() implies (
            #[trigger] self.entities.free()[i]) < self.entities.next() && !self.live(
                self.entities.free()[i],
            ) && !self.changes.references(self.entities.free()[i]) && !self.despawned@.contains(
                self.entities.free()[i],
            ) by {
                assert(!prev.live(prev.entities.free()[i]));
            }
            assert forall|i: int| 0 <= i < self.despawned@.len() implies (
            #[trigger] self.despawned@[i]) < self.entities.next() && !self.live(
                self.despawned@[i],
            ) by {
                assert(!prev.live(prev.despawned@[i]));
            }
            assert(self.ids_wf());
            assert forall|k: usize, e: usize| #![trigger self.delta(k, e)]
                true implies match self.delta(k, e) {
                Some(ChangeKind::Added) => self.has(e, k),
                Some(ChangeKind::Modified(_)) => self.has(e, k),
                Some(ChangeKind::Removed(_)) => !self.has(e, k),
                None => true,
            } by {
                assert(self.delta(k, e) == prev.delta(k, e));
                assert(self.has(e, k) <==> prev.has(e, k));
            }
        }
    }
}

impl<C> World<C> {
    /// Flushes a deferred-mutation buffer against this world: spawns, then
    /// despawns, then one coalesced modification per touched entity, then
    /// resource writes.  Every entity whose despawn was queued is dead
    /// afterwards, whatever else the buffer holds: a flush never
    /// resurrects or partially modifies it.
    pub fn apply_buffer(&mut self, buffer: WorldBuffer<C>)
        requires
            old(self).wf(),
            buffer.wf(),
            old(self).spec_next_id() + buffer.spawn_count() <= usize::MAX,
        ensures
            final(self).wf(),
            forall|i: int|
                0 <= i < buffer.despawns().len() ==> !final(self).live(
                    #[trigger] buffer.despawns()[i],
                ),
            exists|ids: Seq<usize>|
                ids.len() == buffer.spawn_payloads().len() && (forall|s1: int, s2: int|
                    0 <= s1 < s2 < ids.len() ==> ids[s1] != ids[s2]) && (forall|s: int|
                    #![trigger ids[s]]
                    0 <= s < ids.len() ==> !old(self).live(ids[s]) && (buffer.despawns().contains(
                        ids[s],
                    ) || buffer.has_modify(ids[s]) || (final(self).live(ids[s])
                        && final(self).rows_match(
                        ids[s],
                        buffer.spawn_payloads()[s].contents(),
                    )))),
            forall|e: usize| #[trigger]
                buffer.has_modify(e) && old(self).live(e) && !buffer.despawns().contains(e)
                    ==> final(self).live(e) && final(self).rows_match(
                    e,
                    Self::row_after(old(self).row(e), buffer.pending_changes(e)),
                ),
            forall|k: usize| #![trigger final(self).res_has(k)]
                match WorldBuffer::last_res_op(buffer.res_queue(), k) {
                    None => (final(self).res_has(k) <==> old(self).res_has(k)) && (old(
                        self,
                    ).res_has(k) ==> final(self).res(k) == old(self).res(k)),
                    Some(None) => !final(self).res_has(k),
                    Some(Some(v)) => final(self).res_has(k) && final(self).res(k) == v,
                },
    {
        buffer.apply_world(self);
    }
}

/// One queued structural intent, recorded while only shared access to the
/// world was held.
pub enum WorldUpdate<C> {
    /// Create an entity with the bundle.
    SpawnEntity(ComponentBundle<C>),
    /// Remove an entity and all its components.
    DespawnEntity(EntityId),
    /// Apply a list of edits to an entity.
    ModifyEntity(EntityId, Vec<ComponentChange<C>>),
    /// Store a resource under a type key.
    InsertResource(usize, C),
    /// Drop the resource under a type key.
    RemoveResource(usize),
}

impl<C> WorldUpdate<C> {
    /// Whether any update in the queue despawns entity `e`.
    pub open spec fn despawn_targeted(updates: Seq<WorldUpdate<C>>, e: usize) -> bool {
        exists|i: int|
            0 <= i < updates.len() && ((#[trigger] updates[i]) matches WorldUpdate::DespawnEntity(
                d,
            ) && d@ == e)
    }

    /// Whether a spawn is queued after position `i`.
    pub open spec fn spawn_after(updates: Seq<WorldUpdate<C>>, i: int) -> bool {
        exists|j: int| i < j < updates.len() && (#[trigger] updates[j]) is SpawnEntity
    }

    /// The concatenated modification edits queued for entity `e`, in queue
    /// order.
    pub open spec fn mods_for(updates: Seq<WorldUpdate<C>>, e: usize) -> Seq<ComponentChange<C>>
        decreases updates.len(),
    {
        if updates.len() == 0 {
            Seq::empty()
        } else {
            Self::mods_for(updates.drop_last(), e) + (match updates.last() {
                WorldUpdate::ModifyEntity(m, cs) => if m@ == e {
                    cs@
                } else {
                    Seq::empty()
                },
                _ => Seq::empty(),
            })
        }
    }

    /// Replay completeness: every entity alive in `w0` that no queued
    /// despawn targets is alive in `w1`, carrying its old row with its
    /// concatenated queued edits folded over it.
    pub open spec fn replay_complete(
        w0: World<C>,
        w1: World<C>,
        updates: Seq<WorldUpdate<C>>,
    ) -> bool {
        forall|e: usize| #![trigger w0.live(e)]
            w0.live(e) && !Self::despawn_targeted(updates, e) ==> w1.live(e) && w1.rows_match(
                e,
                World::row_after(w0.row(e), Self::mods_for(updates, e)),
            )
    }

    /// The queued resource writes, in queue order.
    pub open spec fn res_ops(updates: Seq<WorldUpdate<C>>) -> Seq<(usize, Option<C>)>
        decreases updates.len(),
    {
        if updates.len() == 0 {
            Seq::empty()
        } else {
            Self::res_ops(updates.drop_last()) + (match updates.last() {
                WorldUpdate::InsertResource(k, v) => seq![(k, Some(v))],
                WorldUpdate::RemoveResource(k) => seq![(k, None::<C>)],
                _ => Seq::empty(),
            })
        }
    }

    /// Every payload key of the update is a usable type key.
    pub open spec fn keys_ok(&self) -> bool {
        match self {
            WorldUpdate::SpawnEntity(bundle) => bundle.wf() && forall|i: int|
                0 <= i < bundle@.len() ==> (#[trigger] bundle@[i]).0 < usize::MAX,
            WorldUpdate::DespawnEntity(_) => true,
            WorldUpdate::ModifyEntity(m, changes) => m@ < usize::MAX && forall|i: int|
                0 <= i < changes@.len() ==> (#[trigger] changes@[i]).key() < usize::MAX,
            WorldUpdate::InsertResource(k, _) => *k < usize::MAX,
            WorldUpdate::RemoveResource(_) => true,
        }
    }

    /// Replays a queue of updates against the world: spawns, despawns and
    /// resource writes apply immediately in queue order, while the edits of
    /// all `ModifyEntity` intents for one entity are batched (preserving
    /// their relative order) and applied once at the end, so an entity
    /// migrates at most once per flush.  A despawn discards the batched
    /// edits collected for its entity so far; with no spawn queued after
    /// it, its entity is dead when the replay ends (a later spawn may
    /// re-issue a freed id).  Every live entity no despawn targets ends up
    /// carrying its old row with its concatenated queued edits folded over
    /// it, and resource writes apply last-write-wins.
    pub fn process(world: &mut World<C>, updates: Vec<WorldUpdate<C>>)
        requires
            old(world).wf(),
            forall|i: int| 0 <= i < updates@.len() ==> (#[trigger] updates@[i]).keys_ok(),
            old(world).spec_next_id() + updates@.len() <= usize::MAX,
        ensures
            final(world).wf(),
            forall|i: int|
                0 <= i < updates@.len() ==> match #[trigger] updates@[i] {
                    WorldUpdate::DespawnEntity(d) => Self::spawn_after(updates@, i)
                        || !final(world).live(d@),
                    _ => true,
                },
            Self::replay_complete(*old(world), *final(world), updates@),
            forall|k: usize| #[trigger]
                final(world).is_tracked(k) <==> old(world).is_tracked(k),
            forall|e: usize, k: usize| #![trigger final(world).delta(k, e)]
                old(world).live(e) && !Self::despawn_targeted(updates@, e) ==> final(world).delta(
                    k,
                    e,
                ) == (if old(world).is_tracked(k) {
                    World::delta_after(
                        old(world).delta(k, e),
                        old(world).row(e),
                        k,
                        Self::mods_for(updates@, e),
                    )
                } else {
                    None::<ChangeKind<C>>
                }),
            forall|k: usize| #![trigger final(world).res_has(k)]
                match crate::buffer::WorldBuffer::<C>::last_res_op(Self::res_ops(updates@), k) {
                    None => (final(world).res_has(k) <==> old(world).res_has(k)) && (old(
                        world,
                    ).res_has(k) ==> final(world).res(k) == old(world).res(k)),
                    Some(None) => !final(world).res_has(k),
                    Some(Some(v)) => final(world).res_has(k) && final(world).res(k) == v,
                },
    {
        let ghost prev = *old(world);
        let ghost qs = updates@;
        let mut pending: SparseSet<Vec<ComponentChange<C>>> = SparseSet::new();
        let mut queue = updates;
        let ghost mut t: int = 0;
        proof {
            assert(qs.take(0) =~= Seq::<WorldUpdate<C>>::empty());
            assert forall|e: usize|
                prev.live(e) && !Self::despawn_targeted(qs, e) implies #[trigger] world.intact_from(
                prev,
                e,
            ) by {
                assert forall|k: usize| #![trigger world.has(e, k)]
                    (world.has(e, k) <==> prev.has(e, k)) && (prev.has(e, k) ==> world.comp(
                        e,
                        k,
                    ) == prev.comp(e, k)) by {}
            }
        }
        while queue.len() > 0
            invariant
                prev.wf(),
                0 <= t <= qs.len(),
                queue@ == qs.skip(t),
                forall|i: int| 0 <= i < qs.len() ==> (#[trigger] qs[i]).keys_ok(),
                world.wf(),
                world.spec_next_id() + qs.len() - t <= usize::MAX,
                pending.wf(),
                forall|i: int|
                    0 <= i < pending@.len() ==> (#[trigger] pending@[i]).0 < usize::MAX && (forall|
                        j: int,
                    |
                        0 <= j < pending@[i].1@.len() ==> (#[trigger] pending@[i].1@[j]).key()
                            < usize::MAX),
                // the batch collected so far for an undespawned entity is its
                // queued-edit concatenation over the processed prefix
                forall|e: usize| #![trigger Self::mods_for(qs.take(t), e)]
                    !Self::despawn_targeted(qs, e) ==> (if pending.has_key(e) {
                        pending.spec_get(e)@
                    } else {
                        Seq::<ComponentChange<C>>::empty()
                    }) == Self::mods_for(qs.take(t), e),
                // processed despawns with no later spawn are dead
                forall|i: int|
                    0 <= i < t ==> match #[trigger] qs[i] {
                        WorldUpdate::DespawnEntity(d) => Self::spawn_after(qs, i) || !world.live(
                            d@,
                        ),
                        _ => true,
                    },
                // undespawned live entities are untouched until the batch phase
                forall|e: usize|
                    prev.live(e) && !Self::despawn_targeted(qs, e) ==> #[trigger] world.intact_from(
                        prev,
                        e,
                    ),
                forall|k: usize| #[trigger] world.is_tracked(k) <==> prev.is_tracked(k),
                forall|k: usize, e: usize|
                    !Self::despawn_targeted(qs, e) ==> #[trigger] world.delta(k, e) == prev.delta(
                        k,
                        e,
                    ),
                forall|k: usize| #![trigger world.res_has(k)]
                    match crate::buffer::WorldBuffer::<C>::last_res_op(
                        Self::res_ops(qs.take(t)),
                        k,
                    ) {
                        None => (world.res_has(k) <==> prev.res_has(k)) && (prev.res_has(k)
                            ==> world.res(k) == prev.res(k)),
                        Some(None) => !world.res_has(k),
                        Some(Some(v)) => world.res_has(k) && world.res(k) == v,
                    },
            decreases queue@.len(),
        {
            let update = queue.remove(0);
            proof {
                assert(queue@ =~= qs.skip(t + 1));
                assert(qs.skip(t)[0] == qs[t]);
                assert(update == qs[t]);
                assert(update.keys_ok());
                assert(qs.take(t + 1).drop_last() =~= qs.take(t));
                assert(qs.take(t + 1).last() == qs[t]);
            }
            let ghost before = *world;
            let ghost pending0 = pending;
            match update {
                WorldUpdate::SpawnEntity(bundle) => {
                    let fresh = world.spawn(bundle);
                    proof {
                        assert forall|e: usize|
                            prev.live(e) && !Self::despawn_targeted(qs, e) implies
                            #[trigger] world.intact_from(prev, e) by {
                            assert(before.intact_from(prev, e));
                            assert(before.live(e));
                            assert(e != fresh@);
                            World::lemma_intact_step(prev, before, *world, fresh@, e);
                        }
                        assert forall|e: usize| #![trigger Self::mods_for(qs.take(t + 1), e)]
                            !Self::despawn_targeted(qs, e) implies (if pending.has_key(e) {
                            pending.spec_get(e)@
                        } else {
                            Seq::<ComponentChange<C>>::empty()
                        }) == Self::mods_for(qs.take(t + 1), e) by {
                            assert(Self::mods_for(qs.take(t + 1), e) =~= Self::mods_for(
                                qs.take(t),
                                e,
                            ));
                        }
                        assert forall|i: int|
                            0 <= i < t + 1 implies match #[trigger] qs[i] {
                            WorldUpdate::DespawnEntity(d) => Self::spawn_after(qs, i)
                                || !world.live(d@),
                            _ => true,
                        } by {
                            match qs[i] {
                                WorldUpdate::DespawnEntity(d) => {
                                    if i < t {
                                        assert(i < t < qs.len() && qs[t] is SpawnEntity);
                                        assert(Self::spawn_after(qs, i));
                                    }
                                },
                                _ => {},
                            }
                        }
                        assert forall|k: usize, e: usize|
                            !Self::despawn_targeted(qs, e) implies #[trigger] world.delta(k, e)
                            == prev.delta(k, e) by {
                            assert(world.delta(k, e) == before.delta(k, e));
                        }
                    }
                },
                WorldUpdate::DespawnEntity(id) => {
                    world.despawn(id);
                    let _cancelled = pending.remove(id.id());
                    proof {
                        assert(Self::despawn_targeted(qs, id@)) by {
                            assert((qs[t] matches WorldUpdate::DespawnEntity(d) && d@ == id@));
                        }
                        assert forall|e: usize|
                            prev.live(e) && !Self::despawn_targeted(qs, e) implies
                            #[trigger] world.intact_from(prev, e) by {
                            assert(before.intact_from(prev, e));
                            assert(e != id@);
                            World::lemma_intact_step(prev, before, *world, id@, e);
                        }
                        assert forall|k: usize, e: usize|
                            !Self::despawn_targeted(qs, e) implies #[trigger] world.delta(k, e)
                            == prev.delta(k, e) by {
                            assert(e != id@);
                            assert(world.delta(k, e) == before.delta(k, e));
                        }
                        assert forall|e: usize| #![trigger Self::mods_for(qs.take(t + 1), e)]
                            !Self::despawn_targeted(qs, e) implies (if pending.has_key(e) {
                            pending.spec_get(e)@
                        } else {
                            Seq::<ComponentChange<C>>::empty()
                        }) == Self::mods_for(qs.take(t + 1), e) by {
                            assert(e != id@);
                            assert(pending.has_key(e) <==> pending0.has_key(e));
                            if pending0.has_key(e) {
                                assert(pending.spec_get(e) == pending0.spec_get(e));
                            }
                            assert(Self::mods_for(qs.take(t + 1), e) =~= Self::mods_for(
                                qs.take(t),
                                e,
                            ));
                        }
                        assert forall|i: int|
                            0 <= i < t + 1 implies match #[trigger] qs[i] {
                            WorldUpdate::DespawnEntity(d) => Self::spawn_after(qs, i)
                                || !world.live(d@),
                            _ => true,
                        } by {
                            match qs[i] {
                                WorldUpdate::DespawnEntity(d) => {
                                    if i == t {
                                        assert(!world.live(id@));
                                    } else {
                                        if !Self::spawn_after(qs, i) {
                                            assert(!before.live(d@));
                                            if d@ != id@ {
                                                assert(world.live(d@) <==> before.live(d@));
                                            }
                                        }
                                    }
                                },
                                _ => {},
                            }
                        }
                    }
                },
                WorldUpdate::ModifyEntity(id, changes) => {
                    let mut batch = match pending.remove(id.id()) {
                        Some(list) => list,
                        None => Vec::new(),
                    };
                    let ghost batch0 = batch@;
                    let ghost cs0 = changes@;
                    let mut extra = changes;
                    let ghost mut t4: int = 0;
                    while extra.len() > 0
                        invariant
                            0 <= t4 <= cs0.len(),
                            extra@ == cs0.skip(t4),
                            batch@ == batch0 + cs0.take(t4),
                            forall|j: int|
                                0 <= j < batch0.len() ==> (#[trigger] batch0[j]).key()
                                    < usize::MAX,
                            forall|j: int|
                                0 <= j < cs0.len() ==> (#[trigger] cs0[j]).key() < usize::MAX,
                        decreases extra@.len(),
                    {
                        let change = extra.remove(0);
                        proof {
                            assert(extra@ =~= cs0.skip(t4 + 1));
                            assert(cs0.skip(t4)[0] == cs0[t4]);
                            assert(change == cs0[t4]);
                        }
                        batch.push(change);
                        proof {
                            assert(batch@ =~= batch0 + cs0.take(t4 + 1));
                            t4 = t4 + 1;
                        }
                    }
                    proof {
                        assert(batch@ == batch0 + cs0) by {
                            assert(cs0.take(cs0.len() as int) =~= cs0);
                        }
                    }
                    pending.insert(id.id(), batch);
                    proof {
                        assert forall|i: int|
                            0 <= i < pending@.len() implies (#[trigger] pending@[i]).0
                            < usize::MAX && (forall|j: int|
                            0 <= j < pending@[i].1@.len() ==> (#[trigger] pending@[i].1@[j]).key()
                                < usize::MAX) by {
                            if pending@[i].0 != id@ {
                                let k2 = pending@[i].0;
                            }
                        }
                        assert forall|e: usize| #![trigger Self::mods_for(qs.take(t + 1), e)]
                            !Self::despawn_targeted(qs, e) implies (if pending.has_key(e) {
                            pending.spec_get(e)@
                        } else {
                            Seq::<ComponentChange<C>>::empty()
                        }) == Self::mods_for(qs.take(t + 1), e) by {
                            if e == id@ {
                                assert(pending.has_key(id@));
                                assert(pending.spec_get(id@)@ == batch0 + cs0);
                                assert(batch0 == Self::mods_for(qs.take(t), id@)) by {
                                    if pending0.has_key(id@) {
                                    }
                                }
                                assert(Self::mods_for(qs.take(t + 1), id@) == Self::mods_for(
                                    qs.take(t),
                                    id@,
                                ) + cs0);
                            } else {
                                assert(pending.has_key(e) <==> pending0.has_key(e));
                                if pending0.has_key(e) {
                                    assert(pending.spec_get(e) == pending0.spec_get(e));
                                }
                                assert(Self::mods_for(qs.take(t + 1), e) =~= Self::mods_for(
                                    qs.take(t),
                                    e,
                                ));
                            }
                        }
                        assert forall|i: int|
                            0 <= i < t + 1 implies match #[trigger] qs[i] {
                            WorldUpdate::DespawnEntity(d) => Self::spawn_after(qs, i)
                                || !world.live(d@),
                            _ => true,
                        } by {
                            match qs[i] {
                                WorldUpdate::DespawnEntity(d) => {
                                    if i < t && !Self::spawn_after(qs, i) {
                                        assert(!before.live(d@));
                                    }
                                },
                                _ => {},
                            }
                        }
                        assert forall|e: usize|
                            prev.live(e) && !Self::despawn_targeted(qs, e) implies
                            #[trigger] world.intact_from(prev, e) by {
                            assert(before.intact_from(prev, e));
                        }
                    }
                },
                WorldUpdate::InsertResource(key, value) => {
                    world.insert_resource(key, value);
                    proof {
                        Self::lemma_process_quiet_step(prev, before, *world, qs, t);
                        assert forall|e: usize| #![trigger Self::mods_for(qs.take(t + 1), e)]
                            !Self::despawn_targeted(qs, e) implies (if pending.has_key(e) {
                            pending.spec_get(e)@
                        } else {
                            Seq::<ComponentChange<C>>::empty()
                        }) == Self::mods_for(qs.take(t + 1), e) by {
                            assert(Self::mods_for(qs.take(t + 1), e) =~= Self::mods_for(
                                qs.take(t),
                                e,
                            ));
                        }
                        assert forall|k: usize, e: usize|
                            !Self::despawn_targeted(qs, e) implies #[trigger] world.delta(k, e)
                            == prev.delta(k, e) by {
                            assert(world.delta(k, e) == before.delta(k, e));
                        }
                    }
                },
                WorldUpdate::RemoveResource(key) => {
                    world.remove_resource(key);
                    proof {
                        Self::lemma_process_quiet_step(prev, before, *world, qs, t);
                        assert forall|e: usize| #![trigger Self::mods_for(qs.take(t + 1), e)]
                            !Self::despawn_targeted(qs, e) implies (if pending.has_key(e) {
                            pending.spec_get(e)@
                        } else {
                            Seq::<ComponentChange<C>>::empty()
                        }) == Self::mods_for(qs.take(t + 1), e) by {
                            assert(Self::mods_for(qs.take(t + 1), e) =~= Self::mods_for(
                                qs.take(t),
                                e,
                            ));
                        }
                        assert forall|k: usize, e: usize|
                            !Self::despawn_targeted(qs, e) implies #[trigger] world.delta(k, e)
                            == prev.delta(k, e) by {
                            assert(world.delta(k, e) == before.delta(k, e));
                        }
                    }
                },
            }
            proof {
                // the resource fold advances by the update's resource ops
                assert(Self::res_ops(qs.take(t + 1)) == Self::res_ops(qs.take(t)) + (match qs[t] {
                    WorldUpdate::InsertResource(k, v) => seq![(k, Some(v))],
                    WorldUpdate::RemoveResource(k) => seq![(k, None::<C>)],
                    _ => Seq::empty(),
                }));
                assert forall|k: usize| #![trigger world.res_has(k)]
                    match crate::buffer::WorldBuffer::<C>::last_res_op(
                        Self::res_ops(qs.take(t + 1)),
                        k,
                    ) {
                        None => (world.res_has(k) <==> prev.res_has(k)) && (prev.res_has(k)
                            ==> world.res(k) == prev.res(k)),
                        Some(None) => !world.res_has(k),
                        Some(Some(v)) => world.res_has(k) && world.res(k) == v,
                    } by {
                    let pre_ops = Self::res_ops(qs.take(t));
                    let post_ops = Self::res_ops(qs.take(t + 1));
                    match qs[t] {
                        WorldUpdate::InsertResource(k0, v0) => {
                            assert(post_ops =~= pre_ops.push((k0, Some(v0))));
                            assert(post_ops.drop_last() =~= pre_ops);
                            if k != k0 {
                                assert(world.res_has(k) <==> before.res_has(k));
                                if before.res_has(k) {
                                    assert(world.res(k) == before.res(k));
                                }
                            }
                        },
                        WorldUpdate::RemoveResource(k0) => {
                            assert(post_ops =~= pre_ops.push((k0, None::<C>)));
                            assert(post_ops.drop_last() =~= pre_ops);
                            if k != k0 {
                                assert(world.res_has(k) <==> before.res_has(k));
                                if before.res_has(k) {
                                    assert(world.res(k) == before.res(k));
                                }
                            }
                        },
                        _ => {
                            assert(post_ops =~= pre_ops);
                            assert(world.res_has(k) <==> before.res_has(k));
                            if before.res_has(k) {
                                assert(world.res(k) == before.res(k));
                            }
                        },
                    }
                }
                t = t + 1;
            }
        }
        proof {
            assert(qs.take(qs.len() as int) =~= qs);
        }
        let ghost batches0_set = pending;
        let mut batches = pending.into_vec();
        let ghost bs0 = batches0_set@;
        let ghost mut t3: int = 0;
        proof {
            assert forall|x1: int, x2: int|
                0 <= x1 < x2 < bs0.len() implies (#[trigger] bs0[x1]).0 != (
            #[trigger] bs0[x2]).0 by {
                if bs0[x1].0 == bs0[x2].0 {
                    batches0_set.lemma_key_unique(x1, x2);
                }
            }
            assert forall|x: int|
                0 <= x < bs0.len() && !Self::despawn_targeted(qs, (#[trigger] bs0[x]).0) implies
                bs0[x].1@ == Self::mods_for(qs, bs0[x].0) by {
                assert(batches0_set@[x].0 == bs0[x].0);
                batches0_set.lemma_idx_of(bs0[x].0);
                assert(batches0_set.spec_get(bs0[x].0) == bs0[x].1);
                assert(batches0_set.has_key(bs0[x].0));
            }
            assert forall|e: usize|
                !Self::in_batches(bs0, e) implies !batches0_set.has_key(e) by {
                if batches0_set.has_key(e) {
                    let x = choose|x: int|
                        0 <= x < batches0_set@.len() && (#[trigger] batches0_set@[x]).0 == e;
                    assert(bs0[x].0 == e);
                }
            }
        }
        while batches.len() > 0
            invariant
                prev.wf(),
                world.wf(),
                0 <= t3 <= bs0.len(),
                batches@ == bs0.skip(t3),
                forall|x1: int, x2: int|
                    0 <= x1 < x2 < bs0.len() ==> (#[trigger] bs0[x1]).0 != (#[trigger] bs0[x2]).0,
                forall|x: int|
                    0 <= x < bs0.len() ==> (#[trigger] bs0[x]).0 < usize::MAX && (forall|j: int|
                        0 <= j < bs0[x].1@.len() ==> (#[trigger] bs0[x].1@[j]).key()
                            < usize::MAX) && (!Self::despawn_targeted(qs, bs0[x].0) ==> bs0[x].1@
                        == Self::mods_for(qs, bs0[x].0)),
                forall|x: int|
                    #![trigger bs0[x]]
                    0 <= x < t3 && prev.live(bs0[x].0) && !Self::despawn_targeted(qs, bs0[x].0)
                        ==> world.live(bs0[x].0) && world.rows_match(
                        bs0[x].0,
                        World::row_after(prev.row(bs0[x].0), Self::mods_for(qs, bs0[x].0)),
                    ),
                forall|x: int|
                    #![trigger bs0[x]]
                    t3 <= x < bs0.len() && prev.live(bs0[x].0) && !Self::despawn_targeted(
                        qs,
                        bs0[x].0,
                    ) ==> world.intact_from(prev, bs0[x].0),
                forall|e: usize|
                    prev.live(e) && !Self::despawn_targeted(qs, e) && !Self::in_batches(bs0, e)
                        ==> #[trigger] world.intact_from(prev, e),
                forall|e: usize| #![trigger Self::mods_for(qs, e)]
                    !Self::despawn_targeted(qs, e) && !Self::in_batches(bs0, e)
                        ==> Self::mods_for(qs, e) == Seq::<ComponentChange<C>>::empty(),
                forall|k: usize| #[trigger] world.is_tracked(k) <==> prev.is_tracked(k),
                forall|x: int|
                    #![trigger bs0[x]]
                    0 <= x < t3 && prev.live(bs0[x].0) && !Self::despawn_targeted(qs, bs0[x].0)
                        ==> (forall|k: usize| #[trigger]
                        world.delta(k, bs0[x].0) == (if prev.is_tracked(k) {
                            World::delta_after(
                                prev.delta(k, bs0[x].0),
                                prev.row(bs0[x].0),
                                k,
                                Self::mods_for(qs, bs0[x].0),
                            )
                        } else {
                            None::<ChangeKind<C>>
                        })),
                forall|k: usize, e: usize|
                    !Self::despawn_targeted(qs, e) && !Self::batch_started(bs0, t3, e)
                        ==> #[trigger] world.delta(k, e) == prev.delta(k, e),
                forall|i: int|
                    0 <= i < qs.len() ==> match #[trigger] qs[i] {
                        WorldUpdate::DespawnEntity(d) => Self::spawn_after(qs, i) || !world.live(
                            d@,
                        ),
                        _ => true,
                    },
                forall|k: usize| #![trigger world.res_has(k)]
                    match crate::buffer::WorldBuffer::<C>::last_res_op(Self::res_ops(qs), k) {
                        None => (world.res_has(k) <==> prev.res_has(k)) && (prev.res_has(k)
                            ==> world.res(k) == prev.res(k)),
                        Some(None) => !world.res_has(k),
                        Some(Some(v)) => world.res_has(k) && world.res(k) == v,
                    },
            decreases batches@.len(),
        {
            let entry = batches.remove(0);
            proof {
                assert(batches@ =~= bs0.skip(t3 + 1));
                assert(bs0.skip(t3)[0] == bs0[t3]);
                assert(entry == bs0[t3]);
            }
            let ghost before = *world;
            let ghost updates0 = entry.1@;
            proof {
                assert(updates0 == bs0[t3].1@);
                if prev.live(entry.0) && !Self::despawn_targeted(qs, entry.0) {
                    assert(before.intact_from(prev, entry.0));
                    assert(before.row(entry.0) =~= prev.row(entry.0)) by {
                        assert forall|k: usize|
                            #![trigger prev.has(entry.0, k)]
                            (before.has(entry.0, k) <==> prev.has(entry.0, k)) && (prev.has(
                                entry.0,
                                k,
                            ) ==> before.comp(entry.0, k) == prev.comp(entry.0, k)) by {}
                    }
                }
            }
            world.modify(EntityId::new(entry.0), entry.1);
            proof {
                assert forall|x: int| 0 <= x < qs.len() implies match #[trigger] qs[x] {
                    WorldUpdate::DespawnEntity(d) => Self::spawn_after(qs, x) || !world.live(d@),
                    _ => true,
                } by {
                    match qs[x] {
                        WorldUpdate::DespawnEntity(d) => {
                            if !Self::spawn_after(qs, x) {
                                assert(!before.live(d@));
                                assert(world.live(d@) <==> before.live(d@));
                            }
                        },
                        _ => {},
                    }
                }
                assert forall|x: int|
                    #![trigger bs0[x]]
                    0 <= x < t3 + 1 && prev.live(bs0[x].0) && !Self::despawn_targeted(
                        qs,
                        bs0[x].0,
                    ) implies world.live(bs0[x].0) && world.rows_match(
                    bs0[x].0,
                    World::row_after(prev.row(bs0[x].0), Self::mods_for(qs, bs0[x].0)),
                ) by {
                    if x == t3 {
                        assert(before.live(entry.0));
                        assert(world.live(entry.0));
                        let m = World::row_after(prev.row(entry.0), Self::mods_for(qs, entry.0));
                        assert(entry.1@ == Self::mods_for(qs, entry.0));
                        assert forall|k: usize| #![trigger world.has(entry.0, k)]
                            (world.has(entry.0, k) <==> m.contains_key(k)) && (m.contains_key(k)
                                ==> world.comp(entry.0, k) == m[k]) by {
                            assert(world.has(entry.0, k) <==> World::row_after(
                                before.row(entry.0),
                                entry.1@,
                            ).contains_key(k));
                            if world.has(entry.0, k) {
                                assert(world.comp(entry.0, k) == World::row_after(
                                    before.row(entry.0),
                                    entry.1@,
                                )[k]);
                            }
                        }
                        assert(world.rows_match(entry.0, m));
                    } else {
                        assert(bs0[x].0 != entry.0);
                        let m = World::row_after(prev.row(bs0[x].0), Self::mods_for(qs, bs0[x].0));
                        assert(before.live(bs0[x].0) && before.rows_match(bs0[x].0, m));
                        World::lemma_rows_match_step(before, *world, entry.0, bs0[x].0, m);
                    }
                }
                assert forall|x: int|
                    #![trigger bs0[x]]
                    t3 + 1 <= x < bs0.len() && prev.live(bs0[x].0) && !Self::despawn_targeted(
                        qs,
                        bs0[x].0,
                    ) implies world.intact_from(prev, bs0[x].0) by {
                    assert(bs0[x].0 != entry.0);
                    assert(before.intact_from(prev, bs0[x].0));
                    World::lemma_intact_step(prev, before, *world, entry.0, bs0[x].0);
                }
                assert forall|e: usize|
                    prev.live(e) && !Self::despawn_targeted(qs, e) && !Self::in_batches(bs0, e)
                        implies #[trigger] world.intact_from(prev, e) by {
                    assert(e != entry.0) by {
                        assert(bs0[t3].0 == entry.0);
                        assert(Self::in_batches(bs0, entry.0));
                    }
                    assert(before.intact_from(prev, e));
                    World::lemma_intact_step(prev, before, *world, entry.0, e);
                }
                assert forall|k: usize, e: usize|
                    !Self::despawn_targeted(qs, e) && !Self::batch_started(bs0, t3 + 1, e)
                        implies #[trigger] world.delta(k, e) == prev.delta(k, e) by {
                    assert(e != entry.0) by {
                        assert(bs0[t3].0 == entry.0);
                        if e == entry.0 {
                            assert(Self::batch_started(bs0, t3 + 1, e));
                        }
                    }
                    assert(!Self::batch_started(bs0, t3, e)) by {
                        if Self::batch_started(bs0, t3, e) {
                            let x = choose|x: int| 0 <= x < t3 && (#[trigger] bs0[x]).0 == e;
                            assert(Self::batch_started(bs0, t3 + 1, e));
                        }
                    }
                    assert(world.delta(k, e) == before.delta(k, e));
                }
                assert forall|x: int|
                    #![trigger bs0[x]]
                    0 <= x < t3 + 1 && prev.live(bs0[x].0) && !Self::despawn_targeted(
                        qs,
                        bs0[x].0,
                    ) implies (forall|k: usize| #[trigger]
                    world.delta(k, bs0[x].0) == (if prev.is_tracked(k) {
                        World::delta_after(
                            prev.delta(k, bs0[x].0),
                            prev.row(bs0[x].0),
                            k,
                            Self::mods_for(qs, bs0[x].0),
                        )
                    } else {
                        None::<ChangeKind<C>>
                    })) by {
                    if x == t3 {
                        assert forall|k: usize| #[trigger]
                            world.delta(k, entry.0) == (if prev.is_tracked(k) {
                                World::delta_after(
                                    prev.delta(k, entry.0),
                                    prev.row(entry.0),
                                    k,
                                    Self::mods_for(qs, entry.0),
                                )
                            } else {
                                None::<ChangeKind<C>>
                            }) by {
                            assert(!Self::batch_started(bs0, t3, entry.0)) by {
                                if Self::batch_started(bs0, t3, entry.0) {
                                    let y = choose|y: int|
                                        0 <= y < t3 && (#[trigger] bs0[y]).0 == entry.0;
                                    assert(bs0[y].0 == bs0[t3].0);
                                }
                            }
                            assert(before.delta(k, entry.0) == prev.delta(k, entry.0));
                            assert(before.is_tracked(k) <==> prev.is_tracked(k));
                            if prev.is_tracked(k) {
                                assert(world.delta(k, entry.0) == World::delta_after(
                                    before.delta(k, entry.0),
                                    before.row(entry.0),
                                    k,
                                    updates0,
                                ));
                            } else {
                                assert(world.delta(k, entry.0) is None);
                            }
                        }
                    } else {
                        assert(bs0[x].0 != entry.0);
                        assert forall|k: usize| #[trigger]
                            world.delta(k, bs0[x].0) == (if prev.is_tracked(k) {
                                World::delta_after(
                                    prev.delta(k, bs0[x].0),
                                    prev.row(bs0[x].0),
                                    k,
                                    Self::mods_for(qs, bs0[x].0),
                                )
                            } else {
                                None::<ChangeKind<C>>
                            }) by {
                            assert(world.delta(k, bs0[x].0) == before.delta(k, bs0[x].0));
                        }
                    }
                }
                t3 = t3 + 1;
            }
        }
        proof {
            assert forall|e: usize| #![trigger prev.live(e)]
                prev.live(e) && !Self::despawn_targeted(updates@, e) implies world.live(e)
                && world.rows_match(
                e,
                World::row_after(prev.row(e), Self::mods_for(updates@, e)),
            ) by {
                assert(qs == updates@);
                if Self::in_batches(bs0, e) {
                    let x = choose|x: int| 0 <= x < bs0.len() && (#[trigger] bs0[x]).0 == e;
                    assert(bs0[x].0 == e);
                    assert(world.live(bs0[x].0) && world.rows_match(
                        bs0[x].0,
                        World::row_after(prev.row(bs0[x].0), Self::mods_for(qs, bs0[x].0)),
                    ));
                } else {
                    assert(world.intact_from(prev, e));
                    World::lemma_intact_rows(prev, *world, e);
                    assert(Self::mods_for(qs, e) == Seq::<ComponentChange<C>>::empty());
                    assert(World::row_after(prev.row(e), Self::mods_for(qs, e)) == prev.row(e));
                }
            }
            assert(Self::replay_complete(prev, *world, updates@));
            assert forall|e: usize, k: usize| #![trigger world.delta(k, e)]
                prev.live(e) && !Self::despawn_targeted(updates@, e) implies world.delta(k, e)
                == (if prev.is_tracked(k) {
                World::delta_after(
                    prev.delta(k, e),
                    prev.row(e),
                    k,
                    Self::mods_for(updates@, e),
                )
            } else {
                None::<ChangeKind<C>>
            }) by {
                assert(qs == updates@);
                if Self::in_batches(bs0, e) {
                    let x = choose|x: int| 0 <= x < bs0.len() && (#[trigger] bs0[x]).0 == e;
                    assert(bs0[x].0 == e);
                    assert(world.delta(k, bs0[x].0) == (if prev.is_tracked(k) {
                        World::delta_after(
                            prev.delta(k, bs0[x].0),
                            prev.row(bs0[x].0),
                            k,
                            Self::mods_for(qs, bs0[x].0),
                        )
                    } else {
                        None::<ChangeKind<C>>
                    }));
                } else {
                    assert(!Self::batch_started(bs0, bs0.len() as int, e)) by {
                        if Self::batch_started(bs0, bs0.len() as int, e) {
                            let x = choose|x: int|
                                0 <= x < bs0.len() && (#[trigger] bs0[x]).0 == e;
                            assert(Self::in_batches(bs0, e));
                        }
                    }
                    assert(world.delta(k, e) == prev.delta(k, e));
                    assert(Self::mods_for(qs, e) == Seq::<ComponentChange<C>>::empty());
                    if prev.is_tracked(k) {
                        assert(World::delta_after(
                            prev.delta(k, e),
                            prev.row(e),
                            k,
                            Self::mods_for(qs, e),
                        ) == prev.delta(k, e));
                    } else {
                        assert(prev.delta(k, e) is None);
                    }
                }
            }
        }
    }

    /// Whether some collected batch belongs to entity `e`.
    pub open spec fn in_batches(bs: Seq<(usize, Vec<ComponentChange<C>>)>, e: usize) -> bool {
        exists|x: int| 0 <= x < bs.len() && (#[trigger] bs[x]).0 == e
    }

    /// Whether a batch for entity `e` lies in the already-applied prefix.
    pub open spec fn batch_started(
        bs: Seq<(usize, Vec<ComponentChange<C>>)>,
        t: int,
        e: usize,
    ) -> bool {
        exists|x: int| 0 <= x < t && (#[trigger] bs[x]).0 == e
    }

    /// A resource write keeps every undespawned live entity intact and the
    /// processed-despawn targets dead.
    proof fn lemma_process_quiet_step(
        prev: World<C>,
        before: World<C>,
        after: World<C>,
        qs: Seq<WorldUpdate<C>>,
        t: int,
    )
        requires
            0 <= t < qs.len(),
            forall|e: usize|
                prev.live(e) && !Self::despawn_targeted(qs, e) ==> #[trigger] before.intact_from(
                    prev,
                    e,
                ),
            forall|i: int|
                0 <= i < t ==> match #[trigger] qs[i] {
                    WorldUpdate::DespawnEntity(d) => Self::spawn_after(qs, i) || !before.live(d@),
                    _ => true,
                },
            !(qs[t] is DespawnEntity),
            !(qs[t] is SpawnEntity),
            !(qs[t] is ModifyEntity),
            forall|e2: usize| #[trigger] after.live(e2) <==> before.live(e2),
            forall|e2: usize, k: usize| #![trigger after.has(e2, k)]
                (after.has(e2, k) <==> before.has(e2, k)) && (before.has(e2, k) ==> after.comp(
                    e2,
                    k,
                ) == before.comp(e2, k)),
        ensures
            forall|e: usize|
                prev.live(e) && !Self::despawn_targeted(qs, e) ==> #[trigger] after.intact_from(
                    prev,
                    e,
                ),
            forall|i: int|
                0 <= i < t + 1 ==> match #[trigger] qs[i] {
                    WorldUpdate::DespawnEntity(d) => Self::spawn_after(qs, i) || !after.live(d@),
                    _ => true,
                },
    {
        assert forall|e: usize|
            prev.live(e) && !Self::despawn_targeted(qs, e) implies #[trigger] after.intact_from(
            prev,
            e,
        ) by {
            assert(before.intact_from(prev, e));
            assert(before.live(e));
            assert(after.live(e));
            assert forall|k: usize| #![trigger after.has(e, k)]
                (after.has(e, k) <==> prev.has(e, k)) && (prev.has(e, k) ==> after.comp(e, k)
                    == prev.comp(e, k)) by {
                assert(after.has(e, k) <==> before.has(e, k));
                if before.has(e, k) {
                    assert(after.comp(e, k) == before.comp(e, k));
                }
                assert(before.has(e, k) <==> prev.has(e, k));
                if prev.has(e, k) {
                    assert(before.comp(e, k) == prev.comp(e, k));
                }
            }
            assert(after.intact_from(prev, e));
        }
        assert forall|i: int|
            0 <= i < t + 1 implies match #[trigger] qs[i] {
            WorldUpdate::DespawnEntity(d) => Self::spawn_after(qs, i) || !after.live(d@),
            _ => true,
        } by {
            match qs[i] {
                WorldUpdate::DespawnEntity(d) => {
                    if i < t && !Self::spawn_after(qs, i) {
                        assert(!before.live(d@));
                        assert(after.live(d@) <==> before.live(d@));
                    }
                },
                _ => {},
            }
        }
    }
}

impl<C> World<C> {
    /// Folding distinct-key insertions moves each key's delta by exactly
    /// one insert step, against the initial row.
    proof fn lemma_delta_after_inserts(
        d: Option<ChangeKind<C>>,
        row: Map<usize, C>,
        k: usize,
        cs: Seq<ComponentChange<C>>,
    )
        requires
            forall|i: int| 0 <= i < cs.len() ==> (#[trigger] cs[i]) is Insert,
            forall|i: int, j: int|
                0 <= i < cs.len() && 0 <= j < cs.len() && i != j ==> (#[trigger] cs[i]).key() != (
                #[trigger] cs[j]).key(),
        ensures
            Self::delta_after(d, row, k, cs) == (if exists|i: int|
                0 <= i < cs.len() && (#[trigger] cs[i]).key() == k {
                if row.contains_key(k) {
                    Self::changed_transition(d, row[k])
                } else {
                    Self::added_transition(d)
                }
            } else {
                d
            }),
        decreases cs.len(),
    {
        if cs.len() > 0 {
            let op = cs[0];
            let d2 = Self::delta_step(d, row, k, op);
            let row2 = Self::row_step(row, op);
            let rest = cs.skip(1);
            assert forall|i: int| 0 <= i < rest.len() implies (#[trigger] rest[i]) is Insert by {
                assert(rest[i] == cs[i + 1]);
            }
            assert forall|i: int, j: int|
                0 <= i < rest.len() && 0 <= j < rest.len() && i != j implies (
            #[trigger] rest[i]).key() != (#[trigger] rest[j]).key() by {
                assert(rest[i] == cs[i + 1] && rest[j] == cs[j + 1]);
            }
            match op {
                ComponentChange::Insert(k0, c0) => {
                    if k0 == k {
                        assert(!(exists|i: int|
                            0 <= i < rest.len() && (#[trigger] rest[i]).key() == k)) by {
                            if exists|i: int|
                                0 <= i < rest.len() && (#[trigger] rest[i]).key() == k {
                                let i = choose|i: int|
                                    0 <= i < rest.len() && (#[trigger] rest[i]).key() == k;
                                assert(rest[i] == cs[i + 1]);
                                assert(cs[0].key() == k);
                            }
                        }
                        Self::lemma_delta_after_inserts(d2, row2, k, rest);
                        assert(cs[0].key() == k);
                    } else {
                        Self::lemma_delta_after_inserts(d2, row2, k, rest);
                        assert(d2 == d);
                        assert(row2.contains_key(k) == row.contains_key(k));
                        if row.contains_key(k) {
                            assert(row2[k] == row[k]);
                        }
                        assert((exists|i: int|
                            0 <= i < cs.len() && (#[trigger] cs[i]).key() == k) == (exists|i: int|
                            0 <= i < rest.len() && (#[trigger] rest[i]).key() == k)) by {
                            if exists|i: int|
                                0 <= i < cs.len() && (#[trigger] cs[i]).key() == k {
                                let i = choose|i: int|
                                    0 <= i < cs.len() && (#[trigger] cs[i]).key() == k;
                                assert(i != 0);
                                assert(rest[i - 1] == cs[i]);
                                assert(rest[i - 1].key() == k);
                            }
                            if exists|i: int|
                                0 <= i < rest.len() && (#[trigger] rest[i]).key() == k {
                                let i = choose|i: int|
                                    0 <= i < rest.len() && (#[trigger] rest[i]).key() == k;
                                assert(rest[i] == cs[i + 1]);
                                assert(cs[i + 1].key() == k);
                            }
                        }
                    }
                },
                ComponentChange::Remove(_) => {
                    assert(false);
                },
            }
        }
    }

    /// Folding removals moves each key's delta by at most one removed step,
    /// against the initial row.
    proof fn lemma_delta_after_removes(
        d: Option<ChangeKind<C>>,
        row: Map<usize, C>,
        k: usize,
        cs: Seq<ComponentChange<C>>,
    )
        requires
            forall|i: int| 0 <= i < cs.len() ==> (#[trigger] cs[i]) is Remove,
        ensures
            Self::delta_after(d, row, k, cs) == (if (exists|i: int|
                0 <= i < cs.len() && (#[trigger] cs[i]).key() == k) && row.contains_key(k) {
                Self::removed_transition(d, row[k])
            } else {
                d
            }),
        decreases cs.len(),
    {
        if cs.len() > 0 {
            let op = cs[0];
            let d2 = Self::delta_step(d, row, k, op);
            let row2 = Self::row_step(row, op);
            let rest = cs.skip(1);
            assert forall|i: int| 0 <= i < rest.len() implies (#[trigger] rest[i]) is Remove by {
                assert(rest[i] == cs[i + 1]);
            }
            Self::lemma_delta_after_removes(d2, row2, k, rest);
            match op {
                ComponentChange::Remove(k0) => {
                    if k0 == k {
                        assert(!row2.contains_key(k));
                        assert(cs[0].key() == k);
                    } else {
                        assert(d2 == d);
                        assert(row2.contains_key(k) == row.contains_key(k));
                        if row.contains_key(k) {
                            assert(row2[k] == row[k]);
                        }
                        assert((exists|i: int|
                            0 <= i < cs.len() && (#[trigger] cs[i]).key() == k) == (exists|i: int|
                            0 <= i < rest.len() && (#[trigger] rest[i]).key() == k)) by {
                            if exists|i: int|
                                0 <= i < cs.len() && (#[trigger] cs[i]).key() == k {
                                let i = choose|i: int|
                                    0 <= i < cs.len() && (#[trigger] cs[i]).key() == k;
                                assert(i != 0);
                                assert(rest[i - 1] == cs[i]);
                                assert(rest[i - 1].key() == k);
                            }
                            if exists|i: int|
                                0 <= i < rest.len() && (#[trigger] rest[i]).key() == k {
                                let i = choose|i: int|
                                    0 <= i < rest.len() && (#[trigger] rest[i]).key() == k;
                                assert(rest[i] == cs[i + 1]);
                                assert(cs[i + 1].key() == k);
                            }
                        }
                    }
                },
                ComponentChange::Insert(_, _) => {
                    assert(false);
                },
            }
        }
    }
}

} // verus!
