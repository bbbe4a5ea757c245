//! The archetype: one packed table per distinct component signature.
//!
//! An archetype owns one column per type key of its signature plus a
//! membership sparse set.  Its well-formedness predicate is the alignment
//! law of the whole engine: every column is exactly as long as the
//! membership, and slot `i` of every column belongs to the `i`-th member
//! entity.  Bundle insertion fills one slot of every column; removal
//! swap-removes the same dense index from the membership and from every
//! column at once, which keeps the alignment without ever leaving a gap.

use vstd::prelude::*;

verus! {

use vstd::pervasive::VecAdditionalExecFns;
use crate::component::ComponentBundle;

broadcast use vstd::seq_lib::group_seq_properties;
use crate::entities::EntityId;
use crate::query::Query;
use crate::sparse_set::SparseSet;

/// Why an archetype refused an operation: these are programmer-error
/// conditions (a routing bug), never user-input errors.
pub enum ArchetypeError {
    /// The entity is not a member of this archetype.
    MissingEntity(usize),
    /// The archetype has no column for the given type key.
    MissingStorage(usize),
}

pub struct Archetype<C> {
    entities: SparseSet<()>,
    keys: Vec<usize>,
    columns: Vec<Vec<C>>,
}

impl<C> Archetype<C> {
    /// The signature: the type keys owned by this archetype, in column order.
    pub closed spec fn sig(&self) -> Seq<usize> {
        self.keys@
    }

    /// The member entity ids, in dense (row) order.
    pub closed spec fn members(&self) -> Seq<usize> {
        Seq::new(self.entities@.len(), |i: int| self.entities@[i].0)
    }

    /// Whether `e` is a member.
    pub closed spec fn has_entity(&self, e: usize) -> bool {
        self.entities.has_key(e)
    }

    /// The row (dense index) of member `e`.
    pub closed spec fn row_of(&self, e: usize) -> int {
        self.entities.idx_of(e)
    }

    /// Whether the signature holds `k`.
    pub open spec fn has_type(&self, k: usize) -> bool {
        self.sig().contains(k)
    }

    /// The column slot of type key `k`.
    pub closed spec fn col_idx(&self, k: usize) -> int {
        choose|j: int| 0 <= j < self.keys@.len() && self.keys@[j] == k
    }

    /// The column of type key `k`, in row order.
    pub closed spec fn col(&self, k: usize) -> Seq<C> {
        self.columns@[self.col_idx(k)]@
    }

    /// The component of member `e` under type key `k`.
    pub open spec fn comp(&self, e: usize, k: usize) -> C {
        self.col(k)[self.row_of(e)]
    }

    /// Every member other than `id` keeps its row and all its components
    /// when `self` is reached from `prev`.
    pub open spec fn others_unchanged(&self, prev: Self, id: usize) -> bool {
        forall|e: usize, k: usize| #![trigger self.comp(e, k)]
            e != id && prev.has_entity(e) && prev.has_type(k) ==> self.comp(e, k) == prev.comp(
                e,
                k,
            ) && self.row_of(e) == prev.row_of(e)
    }

    /// Every member other than `id` keeps all its components when `self` is
    /// reached from `prev` (rows may move: a swap-removal relocates the
    /// displaced member).
    pub open spec fn others_comps_unchanged(&self, prev: Self, id: usize) -> bool {
        forall|e: usize, k: usize| #![trigger self.comp(e, k)]
            e != id && prev.has_entity(e) && prev.has_type(k) ==> self.comp(e, k) == prev.comp(
                e,
                k,
            )
    }

    /// Column/membership alignment: the signature has no duplicate key,
    /// there is one column per key, and every column is exactly as long as
    /// the membership, so that row `i` of every column belongs to the
    /// `i`-th member entity.
    pub closed spec fn wf(&self) -> bool {
        &&& self.entities.wf()
        &&& forall|i: int, j: int|
            0 <= i < self.keys@.len() && 0 <= j < self.keys@.len() && i != j
                ==> self.keys@[i] != self.keys@[j]
        &&& self.columns@.len() == self.keys@.len()
        &&& forall|j: int|
            0 <= j < self.columns@.len() ==> (#[trigger] self.columns@[j])@.len()
                == self.entities@.len()
    }

    /// A well-formed signature never repeats a key.
    pub proof fn lemma_sig_distinct(&self)
        requires
            self.wf(),
        ensures
            forall|i: int, j: int|
                0 <= i < j < self.sig().len() ==> self.sig()[i] != self.sig()[j],
    {
    }

    /// `col_idx` names the one column that stores `k`.
    pub proof fn lemma_col_idx(&self, k: usize)
        requires
            self.wf(),
            self.has_type(k),
        ensures
            0 <= self.col_idx(k) < self.sig().len(),
            self.sig()[self.col_idx(k)] == k,
            forall|j: int| 0 <= j < self.sig().len() && self.sig()[j] == k ==> j == self.col_idx(k),
    {
        assert(exists|j: int| 0 <= j < self.keys@.len() && self.keys@[j] == k);
    }

    /// Member rows are valid and carry distinct entities.
    pub proof fn lemma_row_of(&self, e: usize)
        requires
            self.wf(),
            self.has_entity(e),
        ensures
            0 <= self.row_of(e) < self.members().len(),
            self.members()[self.row_of(e)] == e,
            forall|i: int|
                0 <= i < self.members().len() && self.members()[i] == e ==> i == self.row_of(e),
    {
        self.entities.lemma_idx_of(e);
        assert forall|i: int|
            0 <= i < self.members().len() && self.members()[i] == e implies i == self.row_of(
            e,
        ) by {
            assert(self.entities@[i].0 == e);
        }
    }

    /// Two different rows hold two different entities.
    pub proof fn lemma_members_distinct(&self, i: int, j: int)
        requires
            self.wf(),
            0 <= i < self.members().len(),
            0 <= j < self.members().len(),
            i != j,
        ensures
            self.members()[i] != self.members()[j],
    {
        if self.members()[i] == self.members()[j] {
            assert(self.entities@[i].0 == self.entities@[j].0);
            self.entities.lemma_key_unique(i, j);
        }
    }

    /// Membership in the member list is exactly `has_entity`.
    pub proof fn lemma_members_has(&self, e: usize)
        ensures
            self.members().contains(e) <==> self.has_entity(e),
    {
        if self.members().contains(e) {
            let i = choose|i: int| 0 <= i < self.members().len() && self.members()[i] == e;
            assert(self.entities@[i].0 == e);
        }
        if self.has_entity(e) {
            let i = choose|i: int|
                0 <= i < self.entities@.len() && (#[trigger] self.entities@[i]).0 == e;
            assert(self.members()[i] == e);
        }
    }

    /// Every column of a well-formed archetype is as long as the membership.
    pub proof fn lemma_alignment(&self, k: usize)
        requires
            self.wf(),
            self.has_type(k),
        ensures
            self.col(k).len() == self.members().len(),
    {
        self.lemma_col_idx(k);
    }

    /// An archetype with no columns and no members.
    pub fn new() -> (r: Self)
        ensures
            r.wf(),
            r.sig() == Seq::<usize>::empty(),
            r.members() == Seq::<usize>::empty(),
            forall|e: usize| !(#[trigger] r.has_entity(e)),
    {
        let r = Archetype { entities: SparseSet::new(), keys: Vec::new(), columns: Vec::new() };
        proof {
            assert(r.members() =~= Seq::<usize>::empty());
        }
        r
    }

    /// A typed-but-empty archetype with one column per type key of `bundle`.
    pub fn from_bundle(bundle: &ComponentBundle<C>) -> (r: Self)
        requires
            bundle.wf(),
        ensures
            r.wf(),
            r.members() == Seq::<usize>::empty(),
            r.sig().len() == bundle@.len(),
            forall|j: int| 0 <= j < r.sig().len() ==> r.sig()[j] == (#[trigger] bundle@[j]).0,
            forall|k: usize| r.has_type(k) <==> bundle.has_key(k),
            forall|e: usize| !(#[trigger] r.has_entity(e)),
    {
        let keys = bundle.keys();
        let mut columns: Vec<Vec<C>> = Vec::new();
        let mut j: usize = 0;
        while j < keys.len()
            invariant
                columns@.len() == j,
                j <= keys@.len(),
                forall|i: int| 0 <= i < j ==> (#[trigger] columns@[i])@.len() == 0,
            decreases keys@.len() - j,
        {
            columns.push(Vec::new());
            j = j + 1;
        }
        let r = Archetype { entities: SparseSet::new(), keys, columns };
        proof {
            assert(r.members() =~= Seq::<usize>::empty());
            assert forall|a: int, b: int|
                0 <= a < r.keys@.len() && 0 <= b < r.keys@.len() && a != b implies r.keys@[a]
                != r.keys@[b] by {
                assert(r.keys@[a] == bundle@[a].0);
                assert(r.keys@[b] == bundle@[b].0);
            }
            assert forall|k: usize| r.has_type(k) <==> bundle.has_key(k) by {
                if r.has_type(k) {
                    let j2 = choose|j2: int| 0 <= j2 < r.sig().len() && r.sig()[j2] == k;
                    assert(bundle@[j2].0 == k);
                }
                if bundle.has_key(k) {
                    let j2 = choose|j2: int|
                        0 <= j2 < bundle@.len() && (#[trigger] bundle@[j2]).0 == k;
                    assert(r.sig()[j2] == k);
                }
            }
        }
        r
    }

    /// A typed-but-empty copy of this archetype whose signature also holds
    /// `key` (unchanged if the signature already does).
    pub fn as_empty_with(&self, key: usize) -> (r: Self)
        requires
            self.wf(),
        ensures
            r.wf(),
            r.members() == Seq::<usize>::empty(),
            forall|e: usize| !(#[trigger] r.has_entity(e)),
            forall|k: usize| #[trigger] r.has_type(k) <==> self.has_type(k) || k == key,
    {
        let mut keys: Vec<usize> = Vec::new();
        let mut columns: Vec<Vec<C>> = Vec::new();
        let mut j: usize = 0;
        while j < self.keys.len()
            invariant
                self.wf(),
                j <= self.keys@.len(),
                keys@ == self.keys@.take(j as int),
                columns@.len() == j,
                forall|i: int| 0 <= i < j ==> (#[trigger] columns@[i])@.len() == 0,
            decreases self.keys@.len() - j,
        {
            keys.push(self.keys[j]);
            columns.push(Vec::new());
            proof {
                assert(keys@ =~= self.keys@.take(j as int + 1));
            }
            j = j + 1;
        }
        proof {
            assert(keys@ =~= self.keys@);
        }
        let present = self.has_component(key);
        if !present {
            let ghost keys0 = keys@;
            keys.push(key);
            columns.push(Vec::new());
            let r = Archetype { entities: SparseSet::new(), keys, columns };
            proof {
                assert(r.members() =~= Seq::<usize>::empty());
                assert(!self.keys@.contains(key));
                assert forall|a: int, b: int|
                    0 <= a < r.keys@.len() && 0 <= b < r.keys@.len() && a != b implies r.keys@[a]
                    != r.keys@[b] by {
                    if a == keys0.len() && b < keys0.len() {
                        assert(self.keys@[b] == r.keys@[b]);
                        if r.keys@[b] == key {
                            assert(self.keys@.contains(key));
                        }
                    } else if b == keys0.len() && a < keys0.len() {
                        assert(self.keys@[a] == r.keys@[a]);
                        if r.keys@[a] == key {
                            assert(self.keys@.contains(key));
                        }
                    }
                }
                assert(r.sig() == self.keys@.push(key));
            }
            r
        } else {
            let r = Archetype { entities: SparseSet::new(), keys, columns };
            proof {
                assert(r.members() =~= Seq::<usize>::empty());
                assert forall|k: usize| #[trigger] r.has_type(k) <==> self.has_type(k) || k
                    == key by {
                    assert(r.sig() == self.sig());
                }
            }
            r
        }
    }

    /// A typed-but-empty copy of this archetype whose signature lacks `key`.
    pub fn as_empty_without(&self, key: usize) -> (r: Self)
        requires
            self.wf(),
        ensures
            r.wf(),
            r.members() == Seq::<usize>::empty(),
            forall|e: usize| !(#[trigger] r.has_entity(e)),
            forall|k: usize| #[trigger] r.has_type(k) <==> self.has_type(k) && k != key,
    {
        let mut keys: Vec<usize> = Vec::new();
        let mut columns: Vec<Vec<C>> = Vec::new();
        let mut j: usize = 0;
        while j < self.keys.len()
            invariant
                self.wf(),
                j <= self.keys@.len(),
                columns@.len() == keys@.len(),
                forall|i: int| 0 <= i < keys@.len() ==> (#[trigger] columns@[i])@.len() == 0,
                forall|k: usize| #[trigger]
                    keys@.contains(k) <==> self.keys@.take(j as int).contains(k) && k != key,
                forall|a: int, b: int|
                    0 <= a < keys@.len() && 0 <= b < keys@.len() && a != b ==> keys@[a] != keys@[b],
            decreases self.keys@.len() - j,
        {
            let ghost keys0 = keys@;
            if self.keys[j] != key {
                keys.push(self.keys[j]);
                columns.push(Vec::new());
                proof {
                    assert forall|a: int, b: int|
                        0 <= a < keys@.len() && 0 <= b < keys@.len() && a != b implies keys@[a]
                        != keys@[b] by {
                        if a == keys0.len() && 0 <= b < keys0.len() {
                            assert(keys0[b] == keys@[b]);
                            assert(keys0.contains(keys0[b]));
                            assert(self.keys@.take(j as int).contains(keys@[b]));
                        } else if b == keys0.len() && 0 <= a < keys0.len() {
                            assert(keys0[a] == keys@[a]);
                            assert(keys0.contains(keys0[a]));
                            assert(self.keys@.take(j as int).contains(keys@[a]));
                        }
                    }
                    assert forall|k: usize| #[trigger] keys@.contains(k) implies self.keys@.take(
                        j as int + 1,
                    ).contains(k) && k != key by {
                        if keys0.contains(k) {
                            assert(self.keys@.take(j as int).contains(k));
                            let t = choose|t: int|
                                0 <= t < j && #[trigger] self.keys@[t] == k;
                            assert(self.keys@.take(j as int + 1)[t] == k);
                        } else {
                            assert(k == self.keys@[j as int]);
                            assert(self.keys@.take(j as int + 1)[j as int] == k);
                        }
                    }
                    assert forall|k: usize|
                        self.keys@.take(j as int + 1).contains(k) && k != key implies #[trigger]
                    keys@.contains(k) by {
                        let t = choose|t: int|
                            0 <= t < j + 1 && #[trigger] self.keys@[t] == k;
                        if t < j {
                            assert(self.keys@.take(j as int)[t] == k);
                            assert(self.keys@.take(j as int).contains(k));
                            assert(keys0.contains(k));
                        } else {
                            assert(keys@[keys0.len() as int] == k);
                        }
                    }
                }
            } else {
                proof {
                    assert forall|k: usize| #[trigger]
                        keys@.contains(k) <==> self.keys@.take(j as int + 1).contains(k) && k
                        != key by {
                        if self.keys@.take(j as int + 1).contains(k) && k != key {
                            let t = choose|t: int|
                                0 <= t < j + 1 && #[trigger] self.keys@[t] == k;
                            assert(t < j);
                            assert(self.keys@.take(j as int)[t] == k);
                            assert(self.keys@.take(j as int).contains(k));
                        }
                        if keys@.contains(k) {
                            let t = choose|t: int|
                                0 <= t < j && #[trigger] self.keys@[t] == k;
                            assert(self.keys@.take(j as int + 1)[t] == k);
                        }
                    }
                }
            }
            j = j + 1;
        }
        let r = Archetype { entities: SparseSet::new(), keys, columns };
        proof {
            assert(r.members() =~= Seq::<usize>::empty());
            assert(self.keys@.take(self.keys@.len() as int) =~= self.keys@);
        }
        r
    }

    /// Whether `id` is a member of this archetype.
    pub fn contains(&self, id: EntityId) -> (r: bool)
        requires
            self.wf(),
        ensures
            r == self.has_entity(id@),
    {
        self.entities.contains(id.id())
    }

    /// Whether the signature holds the type key `k`.
    pub fn has_component(&self, k: usize) -> (r: bool)
        requires
            self.wf(),
        ensures
            r == self.has_type(k),
    {
        match self.col_index(k) {
            Some(_) => true,
            None => false,
        }
    }

    /// The column slot storing `k`, by linear scan over the signature.
    fn col_index(&self, k: usize) -> (r: Option<usize>)
        requires
            self.wf(),
        ensures
            match r {
                Some(j) => self.has_type(k) && 0 <= j < self.sig().len() && self.sig()[j as int]
                    == k && j as int == self.col_idx(k),
                None => !self.has_type(k),
            },
    {
        let mut j: usize = 0;
        while j < self.keys.len()
            invariant
                self.wf(),
                j <= self.keys@.len(),
                forall|t: int| 0 <= t < j ==> self.keys@[t] != k,
            decreases self.keys@.len() - j,
        {
            if self.keys[j] == k {
                proof {
                    self.lemma_col_idx(k);
                }
                return Some(j);
            }
            j = j + 1;
        }
        return None;
    }

    /// How many type keys the signature holds.
    pub fn sig_len(&self) -> (r: usize)
        ensures
            r == self.sig().len(),
    {
        self.keys.len()
    }

    /// The signature as an owned vector.
    pub fn type_ids(&self) -> (r: Vec<usize>)
        ensures
            r@ == self.sig(),
    {
        let mut out: Vec<usize> = Vec::new();
        let mut j: usize = 0;
        while j < self.keys.len()
            invariant
                j <= self.keys@.len(),
                out@ == self.keys@.take(j as int),
            decreases self.keys@.len() - j,
        {
            out.push(self.keys[j]);
            j = j + 1;
        }
        proof {
            assert(out@ =~= self.keys@);
        }
        out
    }

    /// The signature as a query key list (the registry's routing key).
    pub fn get_query(&self) -> (r: Query)
        ensures
            r@ == self.sig(),
    {
        Query::new(self.type_ids())
    }

    /// The member ids as owned handles, in row order.
    pub fn iter(&self) -> (r: Vec<EntityId>)
        requires
            self.wf(),
        ensures
            r@.len() == self.members().len(),
            forall|i: int| 0 <= i < r@.len() ==> (#[trigger] r@[i])@ == self.members()[i],
    {
        let dense = self.entities.iter();
        let mut out: Vec<EntityId> = Vec::new();
        let mut i: usize = 0;
        while i < dense.len()
            invariant
                dense@ == self.entities@,
                i <= dense@.len(),
                out@.len() == i,
                forall|t: int| 0 <= t < i ==> (#[trigger] out@[t])@ == self.entities@[t].0,
            decreases dense@.len() - i,
        {
            out.push(EntityId::new(dense[i].0));
            i = i + 1;
        }
        out
    }

    /// Whether the key `k` occurs among the entries of `b`.
    pub open spec fn bundle_has(b: Seq<(usize, C)>, k: usize) -> bool {
        exists|s: int| 0 <= s < b.len() && (#[trigger] b[s]).0 == k
    }

    /// The component stored for `k` among the entries of `b`.
    pub open spec fn bundle_val(b: Seq<(usize, C)>, k: usize) -> C {
        b[choose|s: int| 0 <= s < b.len() && (#[trigger] b[s]).0 == k].1
    }

    /// Adds `id` to the membership (if absent) and fills one slot of every
    /// column owned by both the bundle and the signature.  A new member must
    /// tender exactly the signature, so every column grows by exactly one
    /// slot and the alignment is preserved; an existing member's owned keys
    /// overwrite in place, and bundle members of types the archetype does
    /// not own are ignored (defensive: routing, not the caller, owns the
    /// signature).
    pub fn insert(&mut self, id: EntityId, bundle: ComponentBundle<C>)
        requires
            old(self).wf(),
            bundle.wf(),
            id@ < usize::MAX,
            !old(self).has_entity(id@) ==> forall|k: usize|
                #[trigger] bundle.has_key(k) <==> old(self).has_type(k),
        ensures
            final(self).wf(),
            final(self).sig() == old(self).sig(),
            final(self).has_entity(id@),
            !old(self).has_entity(id@) ==> final(self).members() == old(self).members().push(id@),
            old(self).has_entity(id@) ==> final(self).members() == old(self).members(),
            forall|e: usize| #[trigger]
                final(self).has_entity(e) <==> old(self).has_entity(e) || e == id@,
            forall|k: usize| #[trigger]
                bundle.has_key(k) && old(self).has_type(k) ==> final(self).comp(id@, k)
                    == bundle.spec_get(k),
            old(self).has_entity(id@) ==> forall|k: usize|
                #[trigger] old(self).has_type(k) && !bundle.has_key(k) ==> final(self).comp(
                    id@,
                    k,
                ) == old(self).comp(id@, k),
            final(self).others_unchanged(*old(self), id@),
    {
        let ghost prev = *old(self);
        let ghost b = bundle@;
        let eid = id.id();
        let fresh = !self.entities.contains(eid);
        if fresh {
            self.entities.insert(eid, ());
        }
        proof {
            if fresh {
                self.entities.lemma_idx_of(eid);
            } else {
                prev.entities.lemma_idx_of(eid);
            }
        }
        let row = self.entities.index_of(eid).unwrap();
        let ghost rowg = row as int;
        let mut entries = bundle.into_entries();
        let ghost mut t: int = 0;
        proof {
            assert(b.take(0) =~= Seq::<(usize, C)>::empty());
            if fresh {
                assert(self.entities@ == prev.entities@.push((eid, ())));
                assert(rowg == prev.entities@.len());
            } else {
                assert(self.entities@ == prev.entities@);
                assert(rowg == prev.entities.idx_of(eid));
            }
        }
        while entries.len() > 0
            invariant
                prev.wf(),
                bundle.wf(),
                b == bundle@,
                0 <= t <= b.len(),
                entries@ == b.skip(t),
                id@ == eid && eid < usize::MAX,
                fresh == !prev.has_entity(id@),
                self.keys@ == prev.keys@,
                self.entities.wf(),
                fresh ==> self.entities@ == prev.entities@.push((eid, ())) && rowg
                    == prev.entities@.len(),
                !fresh ==> self.entities@ == prev.entities@ && rowg == prev.entities.idx_of(eid),
                0 <= rowg < self.entities@.len(),
                row as int == rowg,
                self.columns@.len() == prev.columns@.len(),
                forall|j: int| #![trigger self.columns@[j]]
                    0 <= j < self.columns@.len() ==> (if Self::bundle_has(
                        b.take(t),
                        prev.keys@[j],
                    ) {
                        self.columns@[j]@ == (if fresh {
                            prev.columns@[j]@.push(Self::bundle_val(b, prev.keys@[j]))
                        } else {
                            prev.columns@[j]@.update(rowg, Self::bundle_val(b, prev.keys@[j]))
                        })
                    } else {
                        self.columns@[j]@ == prev.columns@[j]@
                    }),
            decreases entries@.len(),
        {
            let entry = entries.remove(0);
            let k = entry.0;
            proof {
                assert(entries@ =~= b.skip(t + 1));
                assert(b.skip(t)[0] == b[t]);
                assert(entry == b[t]);
            }
            let j_opt = self.col_index_distinct(k);
            match j_opt {
                Some(j) => {
                    let ghost jg = j as int;
                    let mut col: Vec<C> = Vec::new();
                    self.columns.set_and_swap(j, &mut col);
                    proof {
                        // this column has not been touched yet: k occurs only once in b
                        if Self::bundle_has(b.take(t), k) {
                            let s = choose|s: int|
                                0 <= s < b.take(t).len() && (#[trigger] b.take(t)[s]).0 == k;
                            assert(b[s].0 == k && b[t].0 == k && s < t);
                        }
                        assert(col@ == prev.columns@[jg]@);
                        if fresh {
                            assert(col@.len() == rowg);
                        } else {
                            assert(rowg < col@.len());
                        }
                        // the value taken is the bundle's value for k
                        let s0 = choose|s: int| 0 <= s < b.len() && (#[trigger] b[s]).0 == k;
                        assert(bundle@[s0].0 == k && bundle@[t].0 == k);
                        assert(Self::bundle_val(b, k) == entry.1);
                    }
                    if row < col.len() {
                        col.set(row, entry.1);
                    } else {
                        col.push(entry.1);
                    }
                    self.columns.set_and_swap(j, &mut col);
                    proof {
                        assert(self.columns@[jg]@ == (if fresh {
                            prev.columns@[jg]@.push(Self::bundle_val(b, prev.keys@[jg]))
                        } else {
                            prev.columns@[jg]@.update(rowg, Self::bundle_val(b, prev.keys@[jg]))
                        }));
                        assert forall|j2: int|
                            0 <= j2 < self.columns@.len() && j2 != jg && !Self::bundle_has(
                                b.take(t),
                                prev.keys@[j2],
                            ) implies !Self::bundle_has(b.take(t + 1), prev.keys@[j2]) by {
                            if Self::bundle_has(b.take(t + 1), prev.keys@[j2]) {
                                let s = choose|s: int|
                                    0 <= s < b.take(t + 1).len()
                                        && (#[trigger] b.take(t + 1)[s]).0 == prev.keys@[j2];
                                assert(b[s].0 == prev.keys@[j2]);
                                if s < t {
                                    assert(b.take(t)[s].0 == prev.keys@[j2]);
                                } else {
                                    assert(b[t].0 == k && prev.keys@[jg] == k);
                                }
                            }
                        }
                        assert(Self::bundle_has(b.take(t + 1), prev.keys@[jg])) by {
                            assert(b.take(t + 1)[t].0 == k);
                        }
                    }
                },
                None => {
                    proof {
                        assert forall|j2: int|
                            0 <= j2 < self.columns@.len() && !Self::bundle_has(
                                b.take(t),
                                prev.keys@[j2],
                            ) implies !Self::bundle_has(b.take(t + 1), prev.keys@[j2]) by {
                            if Self::bundle_has(b.take(t + 1), prev.keys@[j2]) {
                                let s = choose|s: int|
                                    0 <= s < b.take(t + 1).len()
                                        && (#[trigger] b.take(t + 1)[s]).0 == prev.keys@[j2];
                                assert(b[s].0 == prev.keys@[j2]);
                                if s < t {
                                    assert(b.take(t)[s].0 == prev.keys@[j2]);
                                } else {
                                    assert(prev.keys@.contains(prev.keys@[j2]));
                                }
                            }
                        }
                    }
                },
            }
            proof {
                t = t + 1;
            }
        }
        proof {
            assert(b.take(t) =~= b);
            self.lemma_insert_post(prev, bundle, id@, fresh, rowg);
        }
    }

    /// Ties the loop-exit state of `insert` back to the advertised contract.
    #[verifier::rlimit(60)]
    proof fn lemma_insert_post(
        &self,
        prev: Self,
        bundle: ComponentBundle<C>,
        id: usize,
        fresh: bool,
        rowg: int,
    )
        requires
            prev.wf(),
            bundle.wf(),
            id < usize::MAX,
            fresh == !prev.has_entity(id),
            fresh ==> forall|k: usize| #[trigger] bundle.has_key(k) <==> prev.has_type(k),
            self.keys@ == prev.keys@,
            self.entities.wf(),
            fresh ==> self.entities@ == prev.entities@.push((id, ())) && rowg
                == prev.entities@.len(),
            !fresh ==> self.entities@ == prev.entities@ && rowg == prev.entities.idx_of(id),
            self.columns@.len() == prev.columns@.len(),
            forall|j: int| #![trigger self.columns@[j]]
                0 <= j < self.columns@.len() ==> (if Self::bundle_has(bundle@, prev.keys@[j]) {
                    self.columns@[j]@ == (if fresh {
                        prev.columns@[j]@.push(Self::bundle_val(bundle@, prev.keys@[j]))
                    } else {
                        prev.columns@[j]@.update(rowg, Self::bundle_val(bundle@, prev.keys@[j]))
                    })
                } else {
                    self.columns@[j]@ == prev.columns@[j]@
                }),
        ensures
            self.wf(),
            self.sig() == prev.sig(),
            self.has_entity(id),
            fresh ==> self.members() == prev.members().push(id),
            !fresh ==> self.members() == prev.members(),
            forall|e: usize| #[trigger] self.has_entity(e) <==> prev.has_entity(e) || e == id,
            forall|k: usize| #[trigger]
                bundle.has_key(k) && prev.has_type(k) ==> self.comp(id, k) == bundle.spec_get(k),
            !fresh ==> forall|k: usize|
                #[trigger] prev.has_type(k) && !bundle.has_key(k) ==> self.comp(id, k) == prev.comp(
                    id,
                    k,
                ),
            self.others_unchanged(prev, id),
    {
        let b = bundle@;
        if !fresh {
            prev.entities.lemma_idx_of(id);
        }
        // membership
        assert forall|e: usize| #[trigger] self.has_entity(e) <==> prev.has_entity(e) || e
            == id by {
            if fresh {
                if self.has_entity(e) {
                    let i = choose|i: int|
                        0 <= i < self.entities@.len() && (#[trigger] self.entities@[i]).0 == e;
                    if i < prev.entities@.len() {
                        assert(prev.entities@[i].0 == e);
                    }
                }
                if prev.has_entity(e) {
                    let i = choose|i: int|
                        0 <= i < prev.entities@.len() && (#[trigger] prev.entities@[i]).0 == e;
                    assert(self.entities@[i].0 == e);
                }
                assert(self.entities@[prev.entities@.len() as int].0 == id);
            }
        }
        assert(self.has_entity(id));
        self.entities.lemma_idx_of(id);
        let srow = self.entities.idx_of(id);
        if fresh {
            assert(self.entities@[rowg].0 == id);
            assert(srow == rowg);
        } else {
            assert(srow == rowg);
        }
        // alignment
        assert forall|j: int| 0 <= j < self.columns@.len() implies (
        #[trigger] self.columns@[j])@.len() == self.entities@.len() by {
            assert(prev.keys@.contains(prev.keys@[j]));
            if fresh {
                assert(bundle.has_key(prev.keys@[j]));
                assert(Self::bundle_has(b, prev.keys@[j]));
            }
        }
        assert(self.wf());
        // every column of an owned bundle key was transformed
        assert forall|k: usize| #[trigger]
            bundle.has_key(k) && prev.has_type(k) implies self.comp(id, k) == bundle.spec_get(
            k,
        ) by {
            prev.lemma_col_idx(k);
            let j = prev.col_idx(k);
            assert(Self::bundle_has(b, k));
            assert(prev.keys@[j] == k);
            self.lemma_col_idx(k);
            assert(self.col_idx(k) == j);
            bundle.lemma_idx_of(k);
            let s0 = choose|s: int| 0 <= s < b.len() && (#[trigger] b[s]).0 == k;
            assert(s0 == bundle.idx_of(k));
            assert(Self::bundle_val(b, k) == bundle.spec_get(k));
            assert(self.columns@[j]@[rowg] == bundle.spec_get(k));
        }
        // untouched keys of an existing member keep their value
        if !fresh {
            assert forall|k: usize|
                #[trigger] prev.has_type(k) && !bundle.has_key(k) implies self.comp(id, k)
                == prev.comp(id, k) by {
                prev.lemma_col_idx(k);
                let j = prev.col_idx(k);
                self.lemma_col_idx(k);
                assert(!Self::bundle_has(b, k));
                assert(self.columns@[j]@ == prev.columns@[j]@);
            }
        }
        // other members keep their rows and values
        assert forall|e: usize, k: usize| #![trigger self.comp(e, k)]
            e != id && prev.has_entity(e) && prev.has_type(k) implies self.comp(e, k) == prev.comp(
            e,
            k,
        ) && self.row_of(e) == prev.row_of(e) by {
            prev.entities.lemma_idx_of(e);
            let er = prev.entities.idx_of(e);
            assert(self.entities@[er].0 == e);
            self.entities.lemma_idx_of(e);
            assert(self.row_of(e) == er);
            assert(er != rowg) by {
                if fresh {
                    assert(er < prev.entities@.len());
                } else {
                    assert(prev.entities@[er].0 == e && prev.entities@[rowg].0 == id);
                }
            }
            prev.lemma_col_idx(k);
            let j = prev.col_idx(k);
            self.lemma_col_idx(k);
            assert(0 <= er < prev.columns@[j]@.len());
            if Self::bundle_has(b, k) {
                assert(self.columns@[j]@[er] == prev.columns@[j]@[er]);
            } else {
                assert(self.columns@[j]@ == prev.columns@[j]@);
            }
        }
        assert(self.others_unchanged(prev, id));
        // members sequence
        if fresh {
            assert(self.members() =~= prev.members().push(id));
        } else {
            assert(self.members() =~= prev.members());
        }
    }

    /// Swap-removes member `id`, harvesting one component from every column
    /// at the same dense index, and returns them as a bundle; `None` when the
    /// entity is not a member.
    pub fn remove(&mut self, id: EntityId) -> (r: Option<ComponentBundle<C>>)
        requires
            old(self).wf(),
        ensures
            final(self).wf(),
            final(self).sig() == old(self).sig(),
            !old(self).has_entity(id@) ==> r is None && *final(self) == *old(self),
            old(self).has_entity(id@) ==> (r matches Some(bundle) && bundle.wf() && bundle@.len()
                == old(self).sig().len() && (forall|j: int|
                0 <= j < bundle@.len() ==> (#[trigger] bundle@[j]).0 == old(self).sig()[j]
                    && bundle@[j].1 == old(self).comp(id@, old(self).sig()[j]))
                && final(self).members() == old(self).members().update(
                old(self).row_of(id@),
                old(self).members().last(),
            ).drop_last()),
            forall|e: usize| #[trigger]
                final(self).has_entity(e) <==> old(self).has_entity(e) && e != id@,
            final(self).others_comps_unchanged(*old(self), id@),
    {
        let ghost prev = *old(self);
        let eid = id.id();
        let row_opt = self.entities.index_of(eid);
        match row_opt {
            None => None,
            Some(row) => {
                let ghost rowg = row as int;
                proof {
                    prev.entities.lemma_idx_of(eid);
                }
                let mut out: Vec<(usize, C)> = Vec::new();
                let mut j: usize = 0;
                while j < self.columns.len()
                    invariant
                        prev.wf(),
                        id@ == eid,
                        prev.entities.has_key(eid),
                        rowg == prev.entities.idx_of(eid),
                        0 <= rowg < prev.entities@.len(),
                        row as int == rowg,
                        j <= self.columns@.len(),
                        self.keys@ == prev.keys@,
                        self.entities@ == prev.entities@,
                        self.entities.wf(),
                        self.columns@.len() == prev.columns@.len(),
                        forall|t: int| #![trigger self.columns@[t]]
                            j <= t < self.columns@.len() ==> self.columns@[t]@
                                == prev.columns@[t]@,
                        forall|t: int| #![trigger self.columns@[t]]
                            0 <= t < j ==> self.columns@[t]@ == prev.columns@[t]@.update(
                                rowg,
                                prev.columns@[t]@.last(),
                            ).drop_last(),
                        out@.len() == j,
                        forall|t: int|
                            0 <= t < j ==> (#[trigger] out@[t]) == (
                                prev.keys@[t],
                                prev.columns@[t]@[rowg],
                            ),
                    decreases self.columns@.len() - j,
                {
                    let mut col: Vec<C> = Vec::new();
                    self.columns.set_and_swap(j, &mut col);
                    proof {
                        assert(col@ == prev.columns@[j as int]@);
                        assert(prev.columns@[j as int]@.len() == prev.entities@.len());
                    }
                    let c = col.swap_remove(row);
                    self.columns.set_and_swap(j, &mut col);
                    let k = self.keys[j];
                    out.push((k, c));
                    j = j + 1;
                }
                self.entities.remove(eid);
                proof {
                    self.lemma_remove_post(prev, id@, rowg);
                    assert forall|a: int, b: int|
                        0 <= a < out@.len() && 0 <= b < out@.len() && a != b implies (
                        #[trigger] out@[a]).0 != (#[trigger] out@[b]).0 by {
                        assert(out@[a].0 == prev.keys@[a] && out@[b].0 == prev.keys@[b]);
                    }
                }
                let bundle = ComponentBundle::from_entries(out);
                proof {
                    assert forall|j2: int| 0 <= j2 < bundle@.len() implies (
                    #[trigger] bundle@[j2]).0 == prev.sig()[j2] && bundle@[j2].1 == prev.comp(
                        id@,
                        prev.sig()[j2],
                    ) by {
                        assert(prev.sig().contains(prev.sig()[j2]));
                        prev.lemma_col_idx(prev.keys@[j2]);
                        assert(prev.col_idx(prev.keys@[j2]) == j2);
                        assert(prev.row_of(id@) == rowg);
                    }
                }
                Some(bundle)
            },
        }
    }

    /// Ties the loop-exit state of `remove` back to the advertised contract.
    proof fn lemma_remove_post(&self, prev: Self, id: usize, rowg: int)
        requires
            prev.wf(),
            prev.has_entity(id),
            rowg == prev.row_of(id),
            self.keys@ == prev.keys@,
            self.entities.wf(),
            self.entities@ == prev.entities@.update(
                rowg,
                prev.entities@.last(),
            ).drop_last(),
            forall|e: usize| #[trigger]
                self.entities.has_key(e) <==> prev.entities.has_key(e) && e != id,
            self.columns@.len() == prev.columns@.len(),
            forall|t: int| #![trigger self.columns@[t]]
                0 <= t < self.columns@.len() ==> self.columns@[t]@ == prev.columns@[t]@.update(
                    rowg,
                    prev.columns@[t]@.last(),
                ).drop_last(),
        ensures
            self.wf(),
            forall|e: usize| #[trigger] self.has_entity(e) <==> prev.has_entity(e) && e != id,
            self.others_comps_unchanged(prev, id),
            self.members() == prev.members().update(
                prev.row_of(id),
                prev.members().last(),
            ).drop_last(),
    {
        prev.entities.lemma_idx_of(id);
        let last = prev.entities@.len() - 1;
        assert(self.wf());
        assert(self.members() =~= prev.members().update(
            prev.row_of(id),
            prev.members().last(),
        ).drop_last());
        assert forall|e: usize, k: usize|
            e != id && prev.has_entity(e) && prev.has_type(k) implies #[trigger] self.comp(e, k)
            == prev.comp(e, k) by {
            prev.entities.lemma_idx_of(e);
            let er = prev.entities.idx_of(e);
            assert(prev.entities@[er].0 == e && prev.entities@[rowg].0 == id);
            assert(er != rowg);
            assert(self.has_entity(e));
            self.entities.lemma_idx_of(e);
            prev.lemma_col_idx(k);
            let j = prev.col_idx(k);
            self.lemma_col_idx(k);
            assert(self.col_idx(k) == j);
            assert(0 <= er <= last);
            if er == last {
                assert(rowg < last);
                assert(self.entities@[rowg].0 == e);
                assert(self.row_of(e) == rowg);
                assert(self.columns@[j]@[rowg] == prev.columns@[j]@[last]);
            } else {
                assert(self.entities@[er] == prev.entities@[er]);
                assert(self.row_of(e) == er);
                assert(self.columns@[j]@[er] == prev.columns@[j]@[er]);
            }
        }
    }

    /// Replaces the component of member `id` under `key` in place, returning
    /// the previous value; `None` (and no change) when the entity is not a
    /// member or the signature lacks the key.
    pub fn replace_component(&mut self, id: EntityId, key: usize, component: C) -> (r: Option<C>)
        requires
            old(self).wf(),
        ensures
            final(self).wf(),
            final(self).sig() == old(self).sig(),
            final(self).members() == old(self).members(),
            !(old(self).has_entity(id@) && old(self).has_type(key)) ==> r is None && *final(self)
                == *old(self),
            old(self).has_entity(id@) && old(self).has_type(key) ==> r == Some(
                old(self).comp(id@, key),
            ) && final(self).comp(id@, key) == component && final(self).row_of(id@) == old(
                self,
            ).row_of(id@) && (forall|k2: usize|
                #[trigger] old(self).has_type(k2) && k2 != key ==> final(self).comp(id@, k2) == old(
                    self,
                ).comp(id@, k2)),
            forall|e: usize| #[trigger] final(self).has_entity(e) <==> old(self).has_entity(e),
            final(self).others_unchanged(*old(self), id@),
    {
        let ghost prev = *old(self);
        let eid = id.id();
        let row_opt = self.entities.index_of(eid);
        match row_opt {
            None => {
                proof {
                    assert(self.members() =~= prev.members());
                }
                None
            },
            Some(row) => {
                proof {
                    prev.entities.lemma_idx_of(eid);
                }
                match self.col_index_distinct(key) {
                    None => {
                        proof {
                            assert(self.members() =~= prev.members());
                        }
                        None
                    },
                    Some(j) => {
                        let ghost jg = j as int;
                        let ghost rowg = row as int;
                        let mut col: Vec<C> = Vec::new();
                        self.columns.set_and_swap(j, &mut col);
                        proof {
                            assert(col@ == prev.columns@[jg]@);
                        }
                        let mut slot = component;
                        col.set_and_swap(row, &mut slot);
                        self.columns.set_and_swap(j, &mut col);
                        proof {
                            self.lemma_replace_post(prev, id@, key, jg, rowg);
                        }
                        Some(slot)
                    },
                }
            },
        }
    }

    /// Ties the final state of `replace_component` back to its contract.
    proof fn lemma_replace_post(&self, prev: Self, id: usize, key: usize, jg: int, rowg: int)
        requires
            prev.wf(),
            prev.has_entity(id),
            prev.has_type(key),
            rowg == prev.row_of(id),
            jg == prev.col_idx(key),
            self.keys@ == prev.keys@,
            self.entities@ == prev.entities@,
            self.entities.wf(),
            self.columns@.len() == prev.columns@.len(),
            self.columns@[jg]@ == prev.columns@[jg]@.update(
                rowg,
                self.columns@[jg]@[rowg],
            ),
            forall|t: int| #![trigger self.columns@[t]]
                0 <= t < self.columns@.len() && t != jg ==> self.columns@[t]@
                    == prev.columns@[t]@,
        ensures
            self.wf(),
            self.members() == prev.members(),
            forall|e: usize| #[trigger] self.has_entity(e) <==> prev.has_entity(e),
            self.row_of(id) == prev.row_of(id),
            self.comp(id, key) == self.columns@[jg]@[rowg],
            forall|k2: usize|
                #[trigger] prev.has_type(k2) && k2 != key ==> self.comp(id, k2) == prev.comp(
                    id,
                    k2,
                ),
            self.others_unchanged(prev, id),
    {
        prev.entities.lemma_idx_of(id);
        prev.lemma_col_idx(key);
        assert(self.wf());
        assert(self.members() =~= prev.members());
        self.lemma_col_idx(key);
        assert(self.col_idx(key) == jg);
        assert(self.row_of(id) == rowg);
        assert forall|k2: usize|
            #[trigger] prev.has_type(k2) && k2 != key implies self.comp(id, k2) == prev.comp(
            id,
            k2,
        ) by {
            prev.lemma_col_idx(k2);
            let t = prev.col_idx(k2);
            self.lemma_col_idx(k2);
            assert(t != jg);
        }
        assert forall|e: usize, k2: usize|
            e != id && prev.has_entity(e) && prev.has_type(k2) implies #[trigger] self.comp(e, k2)
            == prev.comp(e, k2) && self.row_of(e) == prev.row_of(e) by {
            prev.entities.lemma_idx_of(e);
            let er = prev.entities.idx_of(e);
            self.entities.lemma_idx_of(e);
            assert(self.row_of(e) == er);
            assert(prev.entities@[er].0 == e && prev.entities@[rowg].0 == id);
            assert(er != rowg);
            prev.lemma_col_idx(k2);
            let t = prev.col_idx(k2);
            self.lemma_col_idx(k2);
            if t == jg {
                assert(self.columns@[t]@[er] == prev.columns@[t]@[er]);
            }
        }
    }

    /// Replaces the component of member `id` under `key`, reporting exactly
    /// why it could not: the entity is missing, or the column is.
    pub fn replace(&mut self, id: EntityId, key: usize, component: C) -> (r: Result<
        (),
        ArchetypeError,
    >)
        requires
            old(self).wf(),
        ensures
            final(self).wf(),
            final(self).sig() == old(self).sig(),
            final(self).members() == old(self).members(),
            r is Ok <==> old(self).has_entity(id@) && old(self).has_type(key),
            !old(self).has_entity(id@) ==> r == Result::<(), ArchetypeError>::Err(
                ArchetypeError::MissingEntity(id@),
            ) && *final(self) == *old(self),
            old(self).has_entity(id@) && !old(self).has_type(key) ==> r == Result::<
                (),
                ArchetypeError,
            >::Err(ArchetypeError::MissingStorage(key)) && *final(self) == *old(self),
            r is Ok ==> final(self).comp(id@, key) == component && (forall|k2: usize|
                #[trigger] old(self).has_type(k2) && k2 != key ==> final(self).comp(id@, k2) == old(
                    self,
                ).comp(id@, k2)),
            forall|e: usize| #[trigger] final(self).has_entity(e) <==> old(self).has_entity(e),
            final(self).others_unchanged(*old(self), id@),
    {
        if !self.contains(id) {
            return Err(ArchetypeError::MissingEntity(id.id()));
        }
        if !self.has_component(key) {
            return Err(ArchetypeError::MissingStorage(key));
        }
        let _previous = self.replace_component(id, key, component);
        Ok(())
    }

    /// The column slot storing `k`; needs only key distinctness, so it can
    /// run while columns are mid-update.
    fn col_index_distinct(&self, k: usize) -> (r: Option<usize>)
        requires
            forall|i: int, j: int|
                0 <= i < self.keys@.len() && 0 <= j < self.keys@.len() && i != j
                    ==> self.keys@[i] != self.keys@[j],
        ensures
            match r {
                Some(j) => 0 <= j < self.sig().len() && self.sig()[j as int] == k && j as int
                    == self.col_idx(k) && self.sig().contains(k),
                None => !self.sig().contains(k),
            },
    {
        let mut j: usize = 0;
        while j < self.keys.len()
            invariant
                j <= self.keys@.len(),
                forall|t: int| 0 <= t < j ==> self.keys@[t] != k,
                forall|a: int, c: int|
                    0 <= a < self.keys@.len() && 0 <= c < self.keys@.len() && a != c
                        ==> self.keys@[a] != self.keys@[c],
            decreases self.keys@.len() - j,
        {
            if self.keys[j] == k {
                proof {
                    assert(self.keys@.contains(k));
                    assert forall|t: int|
                        0 <= t < self.keys@.len() && self.keys@[t] == k implies t == j as int by {}
                }
                return Some(j);
            }
            j = j + 1;
        }
        proof {
            if self.keys@.contains(k) {
                let t = choose|t: int| 0 <= t < self.keys@.len() && self.keys@[t] == k;
            }
        }
        return None;
    }

    /// The component of member `id` under type key `k`.
    pub fn get_component(&self, id: EntityId, k: usize) -> (r: Option<&C>)
        requires
            self.wf(),
        ensures
            match r {
                Some(c) => self.has_entity(id@) && self.has_type(k) && *c == self.comp(id@, k),
                None => !self.has_entity(id@) || !self.has_type(k),
            },
    {
        match self.entities.index_of(id.id()) {
            Some(row) => self.get_component_dense(row, k),
            None => None,
        }
    }

    /// The component in row `row` of the column of `k`.
    pub fn get_component_dense(&self, row: usize, k: usize) -> (r: Option<&C>)
        requires
            self.wf(),
            row < self.members().len(),
        ensures
            match r {
                Some(c) => self.has_type(k) && *c == self.col(k)[row as int],
                None => !self.has_type(k),
            },
    {
        match self.col_index(k) {
            Some(j) => Some(&self.columns[j][row]),
            None => None,
        }
    }
}

} // verus!
