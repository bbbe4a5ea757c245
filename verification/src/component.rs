//! Component bundles and structural change descriptions.
//!
//! A component is a caller-defined value paired at runtime with a small
//! integer type key.  A `ComponentBundle` is an ordered, type-unique set of
//! owned components moved as a unit: a spawn payload, or the components
//! harvested from an archetype row during migration.  A `ComponentChange`
//! describes one structural edit to an entity: insert a component under its
//! key, or remove whatever is stored under a key.

use vstd::prelude::*;

verus! {

use vstd::pervasive::VecAdditionalExecFns;

/// One structural edit to an entity.
pub enum ComponentChange<C> {
    /// Store the component under the given type key (replacing any old value).
    Insert(usize, C),
    /// Drop whatever the entity holds under the given type key.
    Remove(usize),
}

impl<C> ComponentChange<C> {
    /// The type key the change touches.
    pub open spec fn key(&self) -> usize {
        match self {
            ComponentChange::Insert(k, _) => *k,
            ComponentChange::Remove(k) => *k,
        }
    }
}

/// An ordered, type-unique collection of owned (type key, component) pairs.
pub struct ComponentBundle<C> {
    entries: Vec<(usize, C)>,
}

impl<C> View for ComponentBundle<C> {
    type V = Seq<(usize, C)>;

    /// The entries in insertion order.
    closed spec fn view(&self) -> Seq<(usize, C)> {
        self.entries@
    }
}

impl<C> ComponentBundle<C> {
    /// No two entries share a type key.
    pub open spec fn wf(&self) -> bool {
        forall|i: int, j: int|
            0 <= i < self@.len() && 0 <= j < self@.len() && i != j ==> (#[trigger] self@[i]).0 != (
            #[trigger] self@[j]).0
    }

    /// Whether some entry carries `key`.
    pub open spec fn has_key(&self, key: usize) -> bool {
        exists|i: int| 0 <= i < self@.len() && (#[trigger] self@[i]).0 == key
    }

    /// The slot of `key` (meaningful only when `has_key`).
    pub open spec fn idx_of(&self, key: usize) -> int {
        choose|i: int| 0 <= i < self@.len() && (#[trigger] self@[i]).0 == key
    }

    /// The component stored under `key` (meaningful only when `has_key`).
    pub open spec fn spec_get(&self, key: usize) -> C {
        self@[self.idx_of(key)].1
    }

    /// The key-to-component map the bundle represents.
    pub open spec fn contents(&self) -> Map<usize, C> {
        Map::new(|k: usize| self.has_key(k), |k: usize| self.spec_get(k))
    }

    /// The set of type keys present: the bundle's signature.
    pub open spec fn key_set(&self) -> Set<usize> {
        Set::new(|k: usize| self.has_key(k))
    }

    /// `idx_of` names the one slot that holds `key`.
    pub proof fn lemma_idx_of(&self, key: usize)
        requires
            self.wf(),
            self.has_key(key),
        ensures
            0 <= self.idx_of(key) < self@.len(),
            self@[self.idx_of(key)].0 == key,
            forall|i: int|
                0 <= i < self@.len() && (#[trigger] self@[i]).0 == key ==> i == self.idx_of(key),
    {
    }

    pub fn new() -> (r: Self)
        ensures
            r.wf(),
            r@ == Seq::<(usize, C)>::empty(),
    {
        ComponentBundle { entries: Vec::new() }
    }

    pub fn len(&self) -> (r: usize)
        ensures
            r == self@.len(),
    {
        self.entries.len()
    }

    /// The slot of `key`, by linear scan.
    pub fn index_of(&self, key: usize) -> (r: Option<usize>)
        requires
            self.wf(),
        ensures
            match r {
                Some(i) => self.has_key(key) && 0 <= i < self@.len() && self@[i as int].0 == key
                    && i as int == self.idx_of(key),
                None => !self.has_key(key),
            },
    {
        let mut i: usize = 0;
        while i < self.entries.len()
            invariant
                self.wf(),
                i <= self@.len(),
                forall|j: int| 0 <= j < i ==> (#[trigger] self@[j]).0 != key,
            decreases self@.len() - i,
        {
            if self.entries[i].0 == key {
                proof {
                    assert(self@[i as int].0 == key);
                    self.lemma_idx_of(key);
                }
                return Some(i);
            }
            i = i + 1;
        }
        None
    }

    pub fn contains(&self, key: usize) -> (r: bool)
        requires
            self.wf(),
        ensures
            r == self.has_key(key),
    {
        self.index_of(key).is_some()
    }

    pub fn get(&self, key: usize) -> (r: Option<&C>)
        requires
            self.wf(),
        ensures
            match r {
                Some(c) => self.has_key(key) && *c == self.spec_get(key),
                None => !self.has_key(key),
            },
    {
        match self.index_of(key) {
            Some(i) => Some(&self.entries[i].1),
            None => None,
        }
    }

    /// Stores `component` under `key`: overwrites in place when the key is
    /// present, else appends.
    pub fn insert(&mut self, key: usize, component: C)
        requires
            old(self).wf(),
        ensures
            final(self).wf(),
            old(self).has_key(key) ==> final(self)@ == old(self)@.update(
                old(self).idx_of(key),
                (key, component),
            ),
            !old(self).has_key(key) ==> final(self)@ == old(self)@.push((key, component)),
            final(self).has_key(key),
            final(self).spec_get(key) == component,
            forall|k2: usize| k2 != key ==> (final(self).has_key(k2) <==> old(self).has_key(k2)),
            forall|k2: usize|
                k2 != key && old(self).has_key(k2) ==> final(self).spec_get(k2) == old(
                    self,
                ).spec_get(k2),
    {
        proof {
            if old(self).has_key(key) {
                old(self).lemma_idx_of(key);
            }
        }
        match self.index_of(key) {
            Some(i) => {
                self.entries.set(i, (key, component));
            },
            None => {
                self.entries.push((key, component));
            },
        }
        proof {
            self.lemma_pointwise(*old(self), key);
        }
    }

    /// Removes and returns the component under `key`; absent keys are a no-op.
    pub fn remove(&mut self, key: usize) -> (r: Option<C>)
        requires
            old(self).wf(),
        ensures
            final(self).wf(),
            !old(self).has_key(key) ==> r is None && final(self)@ == old(self)@,
            old(self).has_key(key) ==> r == Some(old(self).spec_get(key)) && final(self)@ == old(
                self,
            )@.remove(old(self).idx_of(key)),
            !final(self).has_key(key),
            forall|k2: usize| k2 != key ==> (final(self).has_key(k2) <==> old(self).has_key(k2)),
            forall|k2: usize|
                k2 != key && old(self).has_key(k2) ==> final(self).spec_get(k2) == old(
                    self,
                ).spec_get(k2),
    {
        match self.index_of(key) {
            Some(i) => {
                proof {
                    old(self).lemma_idx_of(key);
                }
                let entry = self.entries.remove(i);
                proof {
                    self.lemma_remove_pointwise(*old(self), key, i as int);
                }
                Some(entry.1)
            },
            None => None,
        }
    }

    /// The keys, in entry order.
    pub fn keys(&self) -> (r: Vec<usize>)
        ensures
            r@.len() == self@.len(),
            forall|i: int| 0 <= i < r@.len() ==> r@[i] == (#[trigger] self@[i]).0,
    {
        let mut out: Vec<usize> = Vec::new();
        let mut i: usize = 0;
        while i < self.entries.len()
            invariant
                i <= self@.len(),
                out@.len() == i,
                forall|j: int| 0 <= j < i ==> out@[j] == (#[trigger] self@[j]).0,
            decreases self@.len() - i,
        {
            out.push(self.entries[i].0);
            i = i + 1;
        }
        out
    }

    /// Surrenders the entries for consuming iteration.
    pub fn into_entries(self) -> (r: Vec<(usize, C)>)
        ensures
            r@ == self@,
    {
        self.entries
    }

    /// Rebuilds a bundle from entries already known to be type-unique.
    pub fn from_entries(entries: Vec<(usize, C)>) -> (r: Self)
        requires
            forall|i: int, j: int|
                0 <= i < entries@.len() && 0 <= j < entries@.len() && i != j ==> (
                #[trigger] entries@[i]).0 != (#[trigger] entries@[j]).0,
        ensures
            r.wf(),
            r@ == entries@,
    {
        ComponentBundle { entries }
    }

    /// The pointwise reading of an in-place overwrite or append at `key`.
    proof fn lemma_pointwise(&self, prev: Self, key: usize)
        requires
            prev.wf(),
            self.wf(),
            prev.has_key(key) ==> self@ == prev@.update(prev.idx_of(key), (key, self@[prev.idx_of(
                key,
            )].1)),
            !prev.has_key(key) ==> self@.len() == prev@.len() + 1 && self@[prev@.len() as int].0
                == key && forall|j: int| 0 <= j < prev@.len() ==> self@[j] == prev@[j],
        ensures
            self.has_key(key),
            forall|k2: usize| k2 != key ==> (self.has_key(k2) <==> prev.has_key(k2)),
            forall|k2: usize|
                k2 != key && prev.has_key(k2) ==> self.spec_get(k2) == prev.spec_get(k2),
    {
        let at = if prev.has_key(key) {
            prev.idx_of(key)
        } else {
            prev@.len() as int
        };
        if prev.has_key(key) {
            prev.lemma_idx_of(key);
        }
        assert(self@[at].0 == key);
        assert forall|k2: usize| k2 != key && (self.has_key(k2) || prev.has_key(
            k2,
        )) implies (self.has_key(k2) && prev.has_key(k2) && self.spec_get(k2) == prev.spec_get(
            k2,
        )) by {
            if self.has_key(k2) {
                let i = choose|i: int| 0 <= i < self@.len() && (#[trigger] self@[i]).0 == k2;
                assert(i != at);
                assert(prev@[i].0 == k2);
                prev.lemma_idx_of(k2);
                self.lemma_idx_of(k2);
            } else {
                let i = choose|i: int| 0 <= i < prev@.len() && (#[trigger] prev@[i]).0 == k2;
                assert(i != at);
                assert(self@[i].0 == k2);
                prev.lemma_idx_of(k2);
                self.lemma_idx_of(k2);
            }
        }
    }

    /// The pointwise reading of an order-preserving removal at slot `at`.
    proof fn lemma_remove_pointwise(&self, prev: Self, key: usize, at: int)
        requires
            prev.wf(),
            prev.has_key(key),
            at == prev.idx_of(key),
            self@ == prev@.remove(at),
        ensures
            self.wf(),
            !self.has_key(key),
            forall|k2: usize| k2 != key ==> (self.has_key(k2) <==> prev.has_key(k2)),
            forall|k2: usize|
                k2 != key && prev.has_key(k2) ==> self.spec_get(k2) == prev.spec_get(k2),
    {
        prev.lemma_idx_of(key);
        assert forall|i: int, j: int|
            0 <= i < self@.len() && 0 <= j < self@.len() && i != j implies (#[trigger] self@[i]).0
            != (#[trigger] self@[j]).0 by {
            let pi = if i < at {
                i
            } else {
                i + 1
            };
            let pj = if j < at {
                j
            } else {
                j + 1
            };
            assert(self@[i] == prev@[pi]);
            assert(self@[j] == prev@[pj]);
        }
        assert forall|k2: usize| self.has_key(k2) implies k2 != key && prev.has_key(k2)
            && self.spec_get(k2) == prev.spec_get(k2) by {
            let i = choose|i: int| 0 <= i < self@.len() && (#[trigger] self@[i]).0 == k2;
            let pi = if i < at {
                i
            } else {
                i + 1
            };
            assert(self@[i] == prev@[pi]);
            assert(pi != at);
            prev.lemma_idx_of(k2);
            self.lemma_idx_of(k2);
        }
        assert forall|k2: usize| k2 != key && prev.has_key(k2) implies self.has_key(k2) by {
            prev.lemma_idx_of(k2);
            let pi = prev.idx_of(k2);
            let i = if pi < at {
                pi
            } else {
                pi - 1
            };
            assert(pi != at);
            assert(self@[i] == prev@[pi]);
        }
    }
}

} // verus!
