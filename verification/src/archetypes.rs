//! The archetype registry: all archetypes, signature routing, and the
//! query-pattern cache.
//!
//! The registry owns every archetype.  A component bundle is routed to the
//! archetype with exactly its signature, creating one when none exists; at
//! that moment every cached query pattern whose predicate accepts the new
//! signature has the new archetype appended to its cached list, which keeps
//! the caches correct without invalidation.  Entity lookup is a linear scan
//! over archetypes: its cost follows the number of distinct signatures in
//! use, not the number of entities.

use vstd::prelude::*;

verus! {

use vstd::pervasive::VecAdditionalExecFns;
use crate::archetype::Archetype;
use crate::component::ComponentBundle;
use crate::entities::EntityId;
use crate::query::{Query, QueryPattern, lemma_sorted_set_unique, sorted_strict};

broadcast use vstd::seq_lib::group_seq_properties;

/// Whether a signature carries every required key and no excluded key.
pub open spec fn sig_matches(sig: Seq<usize>, req: Seq<usize>, excl: Seq<usize>) -> bool {
    (forall|k: usize| req.contains(k) ==> #[trigger] sig.contains(k)) && (forall|k: usize|
        excl.contains(k) ==> !(#[trigger] sig.contains(k)))
}

/// Two archetypes own the same signature, as sets.
pub open spec fn sig_set_eq<C>(x: Archetype<C>, y: Archetype<C>) -> bool {
    forall|k: usize| x.has_type(k) <==> y.has_type(k)
}

/// A stable handle to one archetype's slot in the registry.
#[derive(Clone, Copy, PartialEq, Eq, Structural)]
pub struct ArchetypeIdx(usize);

impl View for ArchetypeIdx {
    type V = usize;

    closed spec fn view(&self) -> usize {
        self.0
    }
}

impl ArchetypeIdx {
    pub fn idx(&self) -> (r: usize)
        ensures
            r == self@,
    {
        self.0
    }
}

pub struct Archetypes<C> {
    archetypes: Vec<Archetype<C>>,
    patterns: Vec<QueryPattern>,
    pattern_indices: Vec<Vec<usize>>,
}

impl<C> Archetypes<C> {
    /// The archetype list, in creation order.
    pub closed spec fn archs(&self) -> Seq<Archetype<C>> {
        self.archetypes@
    }

    /// How many archetypes exist.
    pub open spec fn arch_count(&self) -> int {
        self.archs().len() as int
    }

    /// The archetype in slot `a`.
    pub open spec fn arch(&self, a: int) -> Archetype<C> {
        self.archs()[a]
    }

    /// Whether any archetype holds entity `e`.
    pub open spec fn spec_has_entity(&self, e: usize) -> bool {
        exists|a: int| 0 <= a < self.arch_count() && (#[trigger] self.arch(a)).has_entity(e)
    }

    /// The slot of the archetype holding `e` (meaningful only when some does).
    pub open spec fn arch_of(&self, e: usize) -> int {
        choose|a: int| 0 <= a < self.arch_count() && (#[trigger] self.arch(a)).has_entity(e)
    }

    /// Every archetype is internally well formed.
    pub open spec fn archs_wf(&self) -> bool {
        forall|a: int| 0 <= a < self.arch_count() ==> (#[trigger] self.arch(a)).wf()
    }

    /// No two archetypes share a signature.
    pub open spec fn sigs_distinct(&self) -> bool {
        forall|a1: int, a2: int|
            0 <= a1 < a2 < self.arch_count() ==> !sig_set_eq(
                #[trigger] self.arch(a1),
                #[trigger] self.arch(a2),
            )
    }

    /// Every entity lives in at most one archetype.
    pub open spec fn members_disjoint(&self) -> bool {
        forall|a1: int, a2: int, e: usize|
            #![trigger self.arch(a1).has_entity(e), self.arch(a2).has_entity(e)]
            0 <= a1 < self.arch_count() && 0 <= a2 < self.arch_count() && a1 != a2 ==> !(self.arch(
                a1,
            ).has_entity(e) && self.arch(a2).has_entity(e))
    }

    /// The cached list of one pattern is sound, complete and sorted.
    pub closed spec fn cache_entry_ok(&self, p: int) -> bool {
        &&& sorted_strict(self.pattern_indices@[p]@)
        &&& forall|t: int|
            0 <= t < self.pattern_indices@[p]@.len() ==> 0 <= (#[trigger] self.pattern_indices@[p]@[t])
                < self.arch_count() && self.patterns@[p].spec_matches(
                self.arch(self.pattern_indices@[p]@[t] as int).sig(),
            )
        &&& forall|a: int|
            0 <= a < self.arch_count() && self.patterns@[p].spec_matches(
                (#[trigger] self.arch(a)).sig(),
            ) ==> self.pattern_indices@[p]@.contains(a as usize)
    }

    /// The memoized pattern cache is coherent with the archetype list.
    pub closed spec fn cache_ok(&self) -> bool {
        &&& self.patterns@.len() == self.pattern_indices@.len()
        &&& forall|p: int| 0 <= p < self.patterns@.len() ==> (#[trigger] self.patterns@[p]).wf()
        &&& forall|p: int| 0 <= p < self.patterns@.len() ==> self.cache_entry_ok(p)
    }

    /// The registry invariant.
    pub open spec fn wf(&self) -> bool {
        self.archs_wf() && self.sigs_distinct() && self.members_disjoint() && self.cache_ok()
    }

    /// `arch_of` names the one archetype holding `e`.
    pub proof fn lemma_arch_of(&self, e: usize)
        requires
            self.wf(),
            self.spec_has_entity(e),
        ensures
            0 <= self.arch_of(e) < self.arch_count(),
            self.arch(self.arch_of(e)).has_entity(e),
            forall|a: int|
                0 <= a < self.arch_count() && (#[trigger] self.arch(a)).has_entity(e) ==> a
                    == self.arch_of(e),
    {
    }

    pub fn new() -> (r: Self)
        ensures
            r.wf(),
            r.arch_count() == 0,
            r.archs() == Seq::<Archetype<C>>::empty(),
    {
        Archetypes { archetypes: Vec::new(), patterns: Vec::new(), pattern_indices: Vec::new() }
    }

    /// How many archetypes the registry owns.
    pub fn len(&self) -> (r: usize)
        ensures
            r as int == self.arch_count(),
    {
        self.archetypes.len()
    }

    /// The slot of the archetype holding `id`, by linear scan.
    pub fn entity_archetype_idx(&self, id: EntityId) -> (r: Option<ArchetypeIdx>)
        requires
            self.wf(),
        ensures
            match r {
                Some(a) => self.spec_has_entity(id@) && a@ == self.arch_of(id@),
                None => !self.spec_has_entity(id@),
            },
    {
        match self.find_entity(id) {
            Some(a) => Some(ArchetypeIdx(a)),
            None => None,
        }
    }

    /// The archetype holding `id`, by linear scan.
    pub fn entity_archetype(&self, id: EntityId) -> (r: Option<&Archetype<C>>)
        requires
            self.wf(),
        ensures
            match r {
                Some(arch) => self.spec_has_entity(id@) && *arch == self.arch(self.arch_of(id@)),
                None => !self.spec_has_entity(id@),
            },
    {
        match self.find_entity(id) {
            Some(a) => Some(&self.archetypes[a]),
            None => None,
        }
    }

    /// The slot of the archetype holding `id`, as a plain index.
    pub(crate) fn find_entity(&self, id: EntityId) -> (r: Option<usize>)
        requires
            self.wf(),
        ensures
            match r {
                Some(a) => self.spec_has_entity(id@) && a as int == self.arch_of(id@),
                None => !self.spec_has_entity(id@),
            },
    {
        let mut a: usize = 0;
        while a < self.archetypes.len()
            invariant
                self.wf(),
                a <= self.arch_count(),
                forall|t: int| 0 <= t < a ==> !(#[trigger] self.arch(t)).has_entity(id@),
            decreases self.arch_count() - a,
        {
            proof {
                assert(self.arch(a as int).wf());
            }
            if self.archetypes[a].contains(id) {
                proof {
                    assert(self.arch(a as int).has_entity(id@));
                    self.lemma_arch_of(id@);
                }
                return Some(a);
            }
            a = a + 1;
        }
        None
    }
}


impl<C> Archetypes<C> {
    /// The archetype slots below `n` whose signatures satisfy the key sets,
    /// in ascending order.
    pub open spec fn match_below(
        archs: Seq<Archetype<C>>,
        req: Seq<usize>,
        excl: Seq<usize>,
        n: int,
    ) -> Seq<usize>
        decreases n,
    {
        if n <= 0 {
            Seq::empty()
        } else {
            Self::match_below(archs, req, excl, n - 1) + (if sig_matches(
                archs[n - 1].sig(),
                req,
                excl,
            ) {
                seq![(n - 1) as usize]
            } else {
                Seq::empty()
            })
        }
    }

    /// The canonical list of archetype slots matching a query.
    pub open spec fn match_indices(&self, req: Seq<usize>, excl: Seq<usize>) -> Seq<usize> {
        Self::match_below(self.archs(), req, excl, self.arch_count())
    }

    /// The member entities of the given archetype slots, flattened in slot
    /// order then row order.
    pub open spec fn flat_members(archs: Seq<Archetype<C>>, idxs: Seq<usize>) -> Seq<usize>
        decreases idxs.len(),
    {
        if idxs.len() == 0 {
            Seq::empty()
        } else {
            Self::flat_members(archs, idxs.drop_last()) + archs[idxs.last() as int].members()
        }
    }

    /// `match_below` is sorted, sound and complete.
    pub proof fn lemma_match_below(
        archs: Seq<Archetype<C>>,
        req: Seq<usize>,
        excl: Seq<usize>,
        n: int,
    )
        requires
            0 <= n <= archs.len(),
            archs.len() <= usize::MAX,
        ensures
            sorted_strict(Self::match_below(archs, req, excl, n)),
            forall|t: int|
                0 <= t < Self::match_below(archs, req, excl, n).len() ==> (
                #[trigger] Self::match_below(archs, req, excl, n)[t]) < n && sig_matches(
                    archs[Self::match_below(archs, req, excl, n)[t] as int].sig(),
                    req,
                    excl,
                ),
            forall|a: int|
                0 <= a < n && sig_matches((#[trigger] archs[a]).sig(), req, excl)
                    ==> Self::match_below(archs, req, excl, n).contains(a as usize),
        decreases n,
    {
        if n > 0 {
            Self::lemma_match_below(archs, req, excl, n - 1);
            assert(0 <= n - 1 < usize::MAX);
            let prev = Self::match_below(archs, req, excl, n - 1);
            let cur = Self::match_below(archs, req, excl, n);
            if sig_matches(archs[n - 1].sig(), req, excl) {
                assert(cur =~= prev.push((n - 1) as usize));
            } else {
                assert(cur =~= prev);
            }
            assert forall|x: int, y: int| 0 <= x < y < cur.len() implies cur[x] < cur[y] by {
                if y == prev.len() {
                    assert(cur[x] == prev[x]);
                    assert(prev[x] < n - 1);
                    assert(cur[y] == (n - 1) as usize);
                } else {
                    assert(cur[x] == prev[x] && cur[y] == prev[y]);
                }
            }
            assert forall|t: int| 0 <= t < cur.len() implies (#[trigger] cur[t]) < n
                && sig_matches(archs[cur[t] as int].sig(), req, excl) by {
                if t < prev.len() {
                    assert(cur[t] == prev[t]);
                    assert(prev[t] < n - 1);
                } else {
                    assert(cur[t] == (n - 1) as usize);
                }
            }
            assert forall|a: int|
                0 <= a < n && sig_matches((#[trigger] archs[a]).sig(), req, excl) implies cur.contains(
                a as usize,
            ) by {
                if a < n - 1 {
                    assert(prev.contains(a as usize));
                    let t = choose|t: int| 0 <= t < prev.len() && prev[t] == a as usize;
                    assert(cur[t] == a as usize);
                } else {
                    assert(cur[cur.len() - 1] == a as usize);
                }
            }
        }
    }

    /// Whether the archetype's signature equals the bundle's key set.
    pub open spec fn arch_matches_bundle(x: Archetype<C>, b: ComponentBundle<C>) -> bool {
        forall|k: usize| x.has_type(k) <==> b.has_key(k)
    }

    /// Whether `arch`'s signature is exactly the key set of `bundle`.
    fn same_sig(arch: &Archetype<C>, bundle: &ComponentBundle<C>) -> (r: bool)
        requires
            arch.wf(),
            bundle.wf(),
        ensures
            r == Self::arch_matches_bundle(*arch, *bundle),
    {
        let keys = bundle.keys();
        let mut i: usize = 0;
        while i < keys.len()
            invariant
                arch.wf(),
                bundle.wf(),
                keys@.len() == bundle@.len(),
                forall|t: int| 0 <= t < keys@.len() ==> keys@[t] == (#[trigger] bundle@[t]).0,
                i <= keys@.len(),
                forall|t: int| 0 <= t < i ==> arch.sig().contains(#[trigger] keys@[t]),
            decreases keys@.len() - i,
        {
            if !arch.has_component(keys[i]) {
                proof {
                    assert(bundle@[i as int].0 == keys@[i as int]);
                    assert(bundle.has_key(keys@[i as int]));
                }
                return false;
            }
            i = i + 1;
        }
        proof {
            assert forall|k: usize| #[trigger] keys@.contains(k) implies arch.sig().contains(
                k,
            ) by {
                let t = choose|t: int| 0 <= t < keys@.len() && keys@[t] == k;
            }
            assert forall|k: usize| #[trigger] bundle.has_key(k) implies keys@.contains(k) by {
                let s = choose|s: int| 0 <= s < bundle@.len() && (#[trigger] bundle@[s]).0 == k;
                assert(keys@[s] == k);
            }
            assert forall|k: usize| #[trigger] keys@.contains(k) implies bundle.has_key(k) by {
                let t = choose|t: int| 0 <= t < keys@.len() && keys@[t] == k;
                assert(bundle@[t].0 == k);
            }
            assert forall|a: int, b2: int|
                0 <= a < keys@.len() && 0 <= b2 < keys@.len() && a != b2 implies keys@[a]
                != keys@[b2] by {
                assert(keys@[a] == bundle@[a].0 && keys@[b2] == bundle@[b2].0);
            }
        }
        if arch.sig_len() == keys.len() {
            proof {
                arch.lemma_sig_distinct();
                crate::query::lemma_distinct_subset_same_len(keys@, arch.sig());
                assert forall|k: usize| arch.has_type(k) implies #[trigger] bundle.has_key(k) by {
                    assert(keys@.contains(k));
                }
            }
            true
        } else {
            proof {
                arch.lemma_sig_distinct();
                crate::query::lemma_distinct_subset_shorter(keys@, arch.sig());
                let w = choose|k: usize| !(#[trigger] keys@.contains(k) <==> arch.sig().contains(k));
                if keys@.contains(w) {
                    assert(bundle.has_key(w));
                    assert(!arch.has_type(w));
                } else {
                    assert(arch.has_type(w));
                    if bundle.has_key(w) {
                        assert(keys@.contains(w));
                    }
                }
            }
            false
        }
    }

    /// Routes a bundle to the archetype owning exactly its key set, creating
    /// a typed-but-empty one — and extending every cached pattern list that
    /// accepts the new signature — when none exists.
    pub fn component_archetype(&mut self, bundle: &ComponentBundle<C>) -> (a: usize)
        requires
            old(self).wf(),
            bundle.wf(),
        ensures
            final(self).wf(),
            0 <= a < final(self).arch_count(),
            forall|k: usize| #[trigger]
                final(self).arch(a as int).has_type(k) <==> bundle.has_key(k),
            old(self).arch_count() <= final(self).arch_count() <= old(self).arch_count() + 1,
            forall|b: int|
                0 <= b < old(self).arch_count() ==> final(self).arch(b) == old(self).arch(b),
            (a as int) < old(self).arch_count() ==> *final(self) == *old(self),
            (a as int) == old(self).arch_count() ==> final(self).arch_count() == old(
                self,
            ).arch_count() + 1 && final(self).arch(a as int).members() == Seq::<usize>::empty()
                && (forall|e: usize| !(#[trigger] final(self).arch(a as int).has_entity(e))),
    {
        let ghost prev = *old(self);
        let mut a: usize = 0;
        while a < self.archetypes.len()
            invariant
                self.wf(),
                bundle.wf(),
                a <= self.arch_count(),
                forall|t: int|
                    0 <= t < a ==> !Self::arch_matches_bundle(#[trigger] self.arch(t), *bundle),
            decreases self.arch_count() - a,
        {
            proof {
                assert(self.arch(a as int).wf());
            }
            if Self::same_sig(&self.archetypes[a], bundle) {
                return a;
            }
            a = a + 1;
        }
        let new_arch = Archetype::from_bundle(bundle);
        let idx = self.archetypes.len();
        let ghost idxg = idx as int;
        self.archetypes.push(new_arch);
        let post_len = self.archetypes.len();
        proof {
            assert(idxg + 1 == post_len as int);
        }
        let mut p: usize = 0;
        while p < self.patterns.len()
            invariant
                prev.wf(),
                bundle.wf(),
                idx as int == idxg,
                idxg == prev.arch_count(),
                idxg < usize::MAX,
                self.archetypes@.len() == idxg + 1,
                self.archetypes@ == prev.archetypes@.push(new_arch),
                new_arch.wf(),
                new_arch.members() == Seq::<usize>::empty(),
                forall|e: usize| !(#[trigger] new_arch.has_entity(e)),
                forall|k: usize| #[trigger] new_arch.has_type(k) <==> bundle.has_key(k),
                self.patterns@ == prev.patterns@,
                self.pattern_indices@.len() == prev.pattern_indices@.len(),
                p <= self.pattern_indices@.len(),
                forall|q: int|
                    p <= q < self.pattern_indices@.len() ==> #[trigger] self.pattern_indices@[q]
                        == prev.pattern_indices@[q],
                forall|q: int|
                    0 <= q < p ==> #[trigger] self.pattern_indices@[q]@ == (if prev.patterns@[q].spec_matches(
                        new_arch.sig(),
                    ) {
                        prev.pattern_indices@[q]@.push(idx)
                    } else {
                        prev.pattern_indices@[q]@
                    }),
            decreases self.pattern_indices@.len() - p,
        {
            proof {
                assert(prev.cache_entry_ok(p as int));
                assert(self.arch(idxg) == new_arch);
                assert(self.patterns@[p as int] == prev.patterns@[p as int]);
                assert(prev.patterns@[p as int].wf());
            }
            let ghost start = self.pattern_indices@;
            let matched = self.patterns[p].filter(&self.archetypes[idx]);
            proof {
                assert(matched == prev.patterns@[p as int].spec_matches(new_arch.sig()));
            }
            if matched {
                let mut slot: Vec<usize> = Vec::new();
                self.pattern_indices.set_and_swap(p, &mut slot);
                slot.push(idx);
                self.pattern_indices.set_and_swap(p, &mut slot);
                proof {
                    assert(self.pattern_indices@[p as int]@ == start[p as int]@.push(idx));
                    assert forall|q: int|
                        0 <= q < self.pattern_indices@.len() && q != p implies
                        #[trigger] self.pattern_indices@[q] == start[q] by {}
                }
            }
            proof {
                assert forall|q: int| 0 <= q < p + 1 implies #[trigger] self.pattern_indices@[q]@
                    == (if prev.patterns@[q].spec_matches(new_arch.sig()) {
                    prev.pattern_indices@[q]@.push(idx)
                } else {
                    prev.pattern_indices@[q]@
                }) by {
                    if q < p {
                        assert(self.pattern_indices@[q] == start[q]);
                        assert(start[q]@ == (if prev.patterns@[q].spec_matches(new_arch.sig()) {
                            prev.pattern_indices@[q]@.push(idx)
                        } else {
                            prev.pattern_indices@[q]@
                        }));
                    } else {
                        assert(start[q] == prev.pattern_indices@[q]);
                    }
                }
            }
            p = p + 1;
        }
        proof {
            assert(prev.arch_count() == idxg && idxg < usize::MAX as int + 1);
            self.lemma_grow_wf(prev, *bundle, new_arch);
        }
        idx
    }

    /// After appending a fresh archetype and extending the matching cached
    /// lists, the registry invariant holds again.
    proof fn lemma_grow_wf(&self, prev: Self, bundle: ComponentBundle<C>, new_arch: Archetype<C>)
        requires
            prev.wf(),
            prev.arch_count() < usize::MAX,
            bundle.wf(),
            self.archetypes@ == prev.archetypes@.push(new_arch),
            new_arch.wf(),
            forall|e: usize| !(#[trigger] new_arch.has_entity(e)),
            forall|k: usize| #[trigger] new_arch.has_type(k) <==> bundle.has_key(k),
            forall|t: int|
                0 <= t < prev.arch_count() ==> !Self::arch_matches_bundle(
                    #[trigger] prev.arch(t),
                    bundle,
                ),
            self.patterns@ == prev.patterns@,
            self.pattern_indices@.len() == prev.pattern_indices@.len(),
            forall|q: int|
                0 <= q < self.pattern_indices@.len() ==> #[trigger] self.pattern_indices@[q]@ == (
                if prev.patterns@[q].spec_matches(new_arch.sig()) {
                    prev.pattern_indices@[q]@.push(prev.arch_count() as usize)
                } else {
                    prev.pattern_indices@[q]@
                }),
        ensures
            self.wf(),
    {
        let n = prev.arch_count();
        assert forall|a: int| 0 <= a < self.arch_count() implies (#[trigger] self.arch(a)).wf() by {
            if a < n {
                assert(self.arch(a) == prev.arch(a));
            } else {
                assert(self.arch(a) == new_arch);
            }
        }
        assert forall|p: int| 0 <= p < self.patterns@.len() implies (
        #[trigger] self.patterns@[p]).wf() by {
            assert(self.patterns@[p] == prev.patterns@[p]);
        }
        assert forall|a1: int, a2: int| 0 <= a1 < a2 < self.arch_count() implies !sig_set_eq(
            #[trigger] self.arch(a1),
            #[trigger] self.arch(a2),
        ) by {
            if a2 == n {
                assert(self.arch(a1) == prev.arch(a1));
                assert(!Self::arch_matches_bundle(prev.arch(a1), bundle));
                let k = choose|k: usize| !(prev.arch(a1).has_type(k) <==> bundle.has_key(k));
                assert(!(self.arch(a1).has_type(k) <==> self.arch(a2).has_type(k)));
            } else {
                assert(self.arch(a1) == prev.arch(a1));
                assert(self.arch(a2) == prev.arch(a2));
                let k = choose|k: usize| !(prev.arch(a1).has_type(k) <==> prev.arch(a2).has_type(k));
                assert(!(self.arch(a1).has_type(k) <==> self.arch(a2).has_type(k)));
            }
        }
        assert forall|a1: int, a2: int, e: usize|
            #![trigger self.arch(a1).has_entity(e), self.arch(a2).has_entity(e)]
            0 <= a1 < self.arch_count() && 0 <= a2 < self.arch_count() && a1 != a2 implies !(
        self.arch(a1).has_entity(e) && self.arch(a2).has_entity(e)) by {
            if a1 < n && a2 < n {
                assert(self.arch(a1) == prev.arch(a1));
                assert(self.arch(a2) == prev.arch(a2));
                assert(prev.members_disjoint());
                assert(!(prev.arch(a1).has_entity(e) && prev.arch(a2).has_entity(e)));
            }
        }
        assert forall|p: int| 0 <= p < self.patterns@.len() implies self.cache_entry_ok(p) by {
            assert(prev.cache_entry_ok(p));
            let old_list = prev.pattern_indices@[p]@;
            let new_list = self.pattern_indices@[p]@;
            if prev.patterns@[p].spec_matches(new_arch.sig()) {
                assert(new_list == old_list.push(n as usize));
                assert forall|x: int, y: int| 0 <= x < y < new_list.len() implies new_list[x]
                    < new_list[y] by {
                    if y == new_list.len() - 1 {
                        assert(new_list[x] == old_list[x]);
                        assert(old_list[x] < n);
                        assert(new_list[y] == n as usize);
                    } else {
                        assert(new_list[x] == old_list[x]);
                        assert(new_list[y] == old_list[y]);
                        assert(old_list[x] < old_list[y]);
                    }
                }
                assert forall|t: int| 0 <= t < new_list.len() implies 0 <= (
                #[trigger] new_list[t]) < self.arch_count() && self.patterns@[p].spec_matches(
                    self.arch(new_list[t] as int).sig(),
                ) by {
                    if t < old_list.len() {
                        assert(new_list[t] == old_list[t]);
                        assert(self.arch(old_list[t] as int) == prev.arch(old_list[t] as int));
                    } else {
                        assert(new_list[t] == n as usize);
                        assert(self.arch(n) == new_arch);
                    }
                }
                assert forall|a: int|
                    0 <= a < self.arch_count() && self.patterns@[p].spec_matches(
                        (#[trigger] self.arch(a)).sig(),
                    ) implies new_list.contains(a as usize) by {
                    if a < n {
                        assert(self.arch(a) == prev.arch(a));
                        assert(old_list.contains(a as usize));
                        let t = choose|t: int| 0 <= t < old_list.len() && old_list[t] == a as usize;
                        assert(new_list[t] == a as usize);
                    } else {
                        assert(new_list[new_list.len() - 1] == a as usize);
                    }
                }
            } else {
                assert(new_list == old_list);
                assert forall|t: int| 0 <= t < new_list.len() implies 0 <= (
                #[trigger] new_list[t]) < self.arch_count() && self.patterns@[p].spec_matches(
                    self.arch(new_list[t] as int).sig(),
                ) by {
                    assert(self.arch(new_list[t] as int) == prev.arch(new_list[t] as int));
                }
                assert forall|a: int|
                    0 <= a < self.arch_count() && self.patterns@[p].spec_matches(
                        (#[trigger] self.arch(a)).sig(),
                    ) implies new_list.contains(a as usize) by {
                    if a < n {
                        assert(self.arch(a) == prev.arch(a));
                    } else {
                        assert(self.arch(a) == new_arch);
                    }
                }
            }
        }
    }
}


/// One pattern's test agrees with the raw key-set test whenever their key
/// sets agree.
proof fn lemma_pattern_equiv(pattern: QueryPattern, req: Seq<usize>, excl: Seq<usize>, sig: Seq<usize>)
    requires
        forall|k: usize| #[trigger] pattern.req().contains(k) <==> req.contains(k),
        forall|k: usize| #[trigger] pattern.excl().contains(k) <==> excl.contains(k),
    ensures
        pattern.spec_matches(sig) == sig_matches(sig, req, excl),
{
    if pattern.spec_matches(sig) {
        assert forall|k: usize| req.contains(k) implies #[trigger] sig.contains(k) by {
            assert(pattern.req().contains(k));
        }
        assert forall|k: usize| excl.contains(k) implies !(#[trigger] sig.contains(k)) by {
            assert(pattern.excl().contains(k));
        }
    }
    if sig_matches(sig, req, excl) {
        assert forall|k: usize| pattern.req().contains(k) implies #[trigger] sig.contains(k) by {
            assert(req.contains(k));
        }
        assert forall|k: usize| pattern.excl().contains(k) implies !(
        #[trigger] sig.contains(k)) by {
            assert(excl.contains(k));
        }
    }
}

/// An owned copy of a slot list.
fn copy_indices(v: &Vec<usize>) -> (r: Vec<usize>)
    ensures
        r@ == v@,
{
    let mut out: Vec<usize> = Vec::new();
    let mut i: usize = 0;
    while i < v.len()
        invariant
            i <= v@.len(),
            out@ == v@.take(i as int),
        decreases v@.len() - i,
    {
        out.push(v[i]);
        proof {
            assert(out@ =~= v@.take(i as int + 1));
        }
        i = i + 1;
    }
    proof {
        assert(out@ =~= v@);
    }
    out
}

impl<C> Archetypes<C> {
    /// The slots of the archetypes matching the query, ascending; memoized
    /// per canonical pattern, and computed by one scan on a miss.
    pub fn query_archetypes(&mut self, required: Query, excluded: Query) -> (r: Vec<usize>)
        requires
            old(self).wf(),
        ensures
            final(self).wf(),
            final(self).archs() == old(self).archs(),
            r@ == old(self).match_indices(required@, excluded@),
    {
        let ghost prev = *old(self);
        let count = self.archetypes.len();
        proof {
            Self::lemma_match_below(self.archs(), required@, excluded@, count as int);
        }
        let ghost mb = prev.match_indices(required@, excluded@);
        let pattern = QueryPattern::new(Query::new(required.into_keys()), Query::new(excluded.into_keys()));
        let mut p: usize = 0;
        while p < self.patterns.len()
            invariant
                self.wf(),
                self == old(self),
                count as int == self.arch_count(),
                pattern.wf(),
                forall|k: usize| #[trigger] pattern.req().contains(k) <==> required@.contains(k),
                forall|k: usize| #[trigger] pattern.excl().contains(k) <==> excluded@.contains(k),
                mb == self.match_indices(required@, excluded@),
            decreases self.patterns@.len() - p,
        {
            proof {
                assert(self.cache_entry_ok(p as int));
                Self::lemma_match_below(self.archs(), required@, excluded@, self.arch_count());
            }
            if self.patterns[p].same_as(&pattern) {
                let list = copy_indices(&self.pattern_indices[p]);
                proof {
                    let cached = self.pattern_indices@[p as int]@;
                    assert(self.patterns@[p as int].req() == pattern.req());
                    assert(self.patterns@[p as int].excl() == pattern.excl());
                    assert forall|k: usize| #[trigger] self.patterns@[p as int].req().contains(k)
                        <==> required@.contains(k) by {
                        assert(pattern.req().contains(k) <==> required@.contains(k));
                    }
                    assert forall|k: usize| #[trigger] self.patterns@[p as int].excl().contains(k)
                        <==> excluded@.contains(k) by {
                        assert(pattern.excl().contains(k) <==> excluded@.contains(k));
                    }
                    assert forall|k: usize| cached.contains(k) <==> mb.contains(k) by {
                        if cached.contains(k) {
                            let t = choose|t: int| 0 <= t < cached.len() && cached[t] == k;
                            assert(self.patterns@[p as int].spec_matches(
                                self.arch(k as int).sig(),
                            ));
                            lemma_pattern_equiv(
                                self.patterns@[p as int],
                                required@,
                                excluded@,
                                self.arch(k as int).sig(),
                            );
                            assert(sig_matches(self.arch(k as int).sig(), required@, excluded@));
                            assert(mb.contains(k));
                        }
                        if mb.contains(k) {
                            let t = choose|t: int| 0 <= t < mb.len() && mb[t] == k;
                            assert((k as int) < self.arch_count());
                            assert(sig_matches(self.arch(k as int).sig(), required@, excluded@));
                            lemma_pattern_equiv(
                                self.patterns@[p as int],
                                required@,
                                excluded@,
                                self.arch(k as int).sig(),
                            );
                            assert(self.patterns@[p as int].spec_matches(
                                self.arch(k as int).sig(),
                            ));
                            assert(cached.contains(k));
                        }
                    }
                    lemma_sorted_set_unique(cached, mb);
                }
                return list;
            }
            p = p + 1;
        }
        let mut out: Vec<usize> = Vec::new();
        let mut a: usize = 0;
        while a < count
            invariant
                self.wf(),
                self == old(self),
                count == self.arch_count(),
                a <= count,
                forall|k: usize| #[trigger] pattern.req().contains(k) <==> required@.contains(k),
                forall|k: usize| #[trigger] pattern.excl().contains(k) <==> excluded@.contains(k),
                pattern.wf(),
                out@ == Self::match_below(self.archs(), required@, excluded@, a as int),
            decreases count - a,
        {
            proof {
                assert(self.arch(a as int).wf());
            }
            if pattern.filter(&self.archetypes[a]) {
                out.push(a);
            }
            proof {
                lemma_pattern_equiv(pattern, required@, excluded@, self.arch(a as int).sig());
                assert(out@ =~= Self::match_below(
                    self.archs(),
                    required@,
                    excluded@,
                    a as int + 1,
                ));
            }
            a = a + 1;
        }
        let stored = copy_indices(&out);
        self.patterns.push(pattern);
        self.pattern_indices.push(stored);
        proof {
            assert(self.archs() == prev.archs());
            assert forall|a2: int| 0 <= a2 < self.arch_count() implies (
            #[trigger] self.arch(a2)).wf() by {
                assert(self.arch(a2) == prev.arch(a2));
            }
            assert forall|a1: int, a2: int| 0 <= a1 < a2 < self.arch_count() implies !sig_set_eq(
                #[trigger] self.arch(a1),
                #[trigger] self.arch(a2),
            ) by {
                assert(self.arch(a1) == prev.arch(a1));
                assert(self.arch(a2) == prev.arch(a2));
                assert(!sig_set_eq(prev.arch(a1), prev.arch(a2)));
                let k = choose|k: usize| !(prev.arch(a1).has_type(k) <==> prev.arch(a2).has_type(k));
                assert(!(self.arch(a1).has_type(k) <==> self.arch(a2).has_type(k)));
            }
            assert forall|a1: int, a2: int, e: usize|
                #![trigger self.arch(a1).has_entity(e), self.arch(a2).has_entity(e)]
                0 <= a1 < self.arch_count() && 0 <= a2 < self.arch_count() && a1 != a2 implies !(
            self.arch(a1).has_entity(e) && self.arch(a2).has_entity(e)) by {
                assert(self.arch(a1) == prev.arch(a1));
                assert(self.arch(a2) == prev.arch(a2));
                assert(!(prev.arch(a1).has_entity(e) && prev.arch(a2).has_entity(e)));
            }
            assert(self.patterns@.len() == self.pattern_indices@.len());
            let np = self.patterns@.len() - 1;
            assert forall|p2: int| 0 <= p2 < self.patterns@.len() implies (
            #[trigger] self.patterns@[p2]).wf() by {
                if p2 < np {
                    assert(self.patterns@[p2] == prev.patterns@[p2]);
                } else {
                    assert(self.patterns@[p2] == pattern);
                }
            }
            assert forall|p2: int| 0 <= p2 < self.patterns@.len() implies self.cache_entry_ok(
                p2,
            ) by {
                if p2 < np {
                    assert(self.patterns@[p2] == prev.patterns@[p2]);
                    assert(self.pattern_indices@[p2] == prev.pattern_indices@[p2]);
                    assert(prev.cache_entry_ok(p2));
                    assert forall|t: int|
                        0 <= t < self.pattern_indices@[p2]@.len() implies 0 <= (
                    #[trigger] self.pattern_indices@[p2]@[t]) < self.arch_count()
                        && self.patterns@[p2].spec_matches(
                        self.arch(self.pattern_indices@[p2]@[t] as int).sig(),
                    ) by {
                        assert(self.arch(self.pattern_indices@[p2]@[t] as int) == prev.arch(
                            self.pattern_indices@[p2]@[t] as int,
                        ));
                    }
                    assert forall|a2: int|
                        0 <= a2 < self.arch_count() && self.patterns@[p2].spec_matches(
                            (#[trigger] self.arch(a2)).sig(),
                        ) implies self.pattern_indices@[p2]@.contains(a2 as usize) by {
                        assert(self.arch(a2) == prev.arch(a2));
                    }
                } else {
                    assert(self.patterns@[p2] == pattern);
                    assert(self.pattern_indices@[p2]@ == out@);
                    assert forall|t: int|
                        0 <= t < out@.len() implies 0 <= (#[trigger] out@[t]) < self.arch_count()
                            && self.patterns@[p2].spec_matches(
                            self.arch(out@[t] as int).sig(),
                        ) by {
                        assert((out@[t] as int) < count);
                        assert(sig_matches(self.arch(out@[t] as int).sig(), required@, excluded@));
                        lemma_pattern_equiv(
                            pattern,
                            required@,
                            excluded@,
                            self.arch(out@[t] as int).sig(),
                        );
                    }
                    assert forall|a2: int|
                        0 <= a2 < self.arch_count() && self.patterns@[p2].spec_matches(
                            (#[trigger] self.arch(a2)).sig(),
                        ) implies self.pattern_indices@[p2]@.contains(a2 as usize) by {
                        lemma_pattern_equiv(pattern, required@, excluded@, self.arch(a2).sig());
                        assert(sig_matches(self.arch(a2).sig(), required@, excluded@));
                        assert(mb.contains(a2 as usize));
                    }
                }
            }
            assert(self.archs_wf());
            assert(self.sigs_distinct());
            assert(self.members_disjoint());
            assert(self.cache_ok());
        }
        out
    }

    /// The member entities of every archetype matching the query, in
    /// archetype order then row order: deterministic and exhaustive, because
    /// an entity belongs to exactly one archetype at any instant.
    pub fn query_entities(&mut self, required: Query, excluded: Query) -> (r: Vec<EntityId>)
        requires
            old(self).wf(),
        ensures
            final(self).wf(),
            final(self).archs() == old(self).archs(),
            r@.len() == Self::flat_members(
                old(self).archs(),
                old(self).match_indices(required@, excluded@),
            ).len(),
            forall|i: int|
                0 <= i < r@.len() ==> (#[trigger] r@[i])@ == Self::flat_members(
                    old(self).archs(),
                    old(self).match_indices(required@, excluded@),
                )[i],
    {
        let ghost prev = *old(self);
        let ghost mb = prev.match_indices(required@, excluded@);
        let count = self.archetypes.len();
        proof {
            assert(count as int == prev.arch_count());
            Self::lemma_match_below(prev.archs(), required@, excluded@, prev.arch_count());
        }
        let idxs = self.query_archetypes(required, excluded);
        let mut out: Vec<EntityId> = Vec::new();
        let mut t: usize = 0;
        while t < idxs.len()
            invariant
                self.wf(),
                self.archs() == prev.archs(),
                idxs@ == mb,
                mb == prev.match_indices(required@, excluded@),
                forall|u: int| 0 <= u < mb.len() ==> (#[trigger] mb[u] as int) < prev.arch_count(),
                t <= idxs@.len(),
                out@.len() == Self::flat_members(prev.archs(), mb.take(t as int)).len(),
                forall|i: int|
                    0 <= i < out@.len() ==> (#[trigger] out@[i])@ == Self::flat_members(
                        prev.archs(),
                        mb.take(t as int),
                    )[i],
            decreases idxs@.len() - t,
        {
            let a = idxs[t];
            proof {
                assert(mb[t as int] == a);
                assert((a as int) < self.arch_count());
                assert(self.arch(a as int).wf());
            }
            let ids = self.archetypes[a].iter();
            let ghost flat_before = Self::flat_members(prev.archs(), mb.take(t as int));
            let mut u: usize = 0;
            while u < ids.len()
                invariant
                    ids@.len() == prev.arch(mb[t as int] as int).members().len(),
                    forall|i: int|
                        0 <= i < ids@.len() ==> (#[trigger] ids@[i])@ == prev.arch(
                            mb[t as int] as int,
                        ).members()[i],
                    u <= ids@.len(),
                    out@.len() == flat_before.len() + u,
                    forall|i: int|
                        0 <= i < flat_before.len() ==> (#[trigger] out@[i])@ == flat_before[i],
                    forall|i: int|
                        flat_before.len() <= i < out@.len() ==> (#[trigger] out@[i])@ == prev.arch(
                            mb[t as int] as int,
                        ).members()[i - flat_before.len()],
                decreases ids@.len() - u,
            {
                out.push(ids[u]);
                u = u + 1;
            }
            proof {
                assert(mb.take(t as int + 1).drop_last() =~= mb.take(t as int));
                assert(mb.take(t as int + 1).last() == mb[t as int]);
                let flat_after = Self::flat_members(prev.archs(), mb.take(t as int + 1));
                assert(flat_after == flat_before + prev.arch(mb[t as int] as int).members());
                assert forall|i: int| 0 <= i < out@.len() implies (#[trigger] out@[i])@
                    == flat_after[i] by {
                    if i < flat_before.len() {
                        assert(flat_after[i] == flat_before[i]);
                    } else {
                        assert(flat_after[i] == prev.arch(mb[t as int] as int).members()[i
                            - flat_before.len()]);
                    }
                }
            }
            t = t + 1;
        }
        proof {
            assert(mb.take(mb.len() as int) =~= mb);
        }
        out
    }
}


impl<C> Archetypes<C> {
    /// An entity occurs in the flattened members of some slots exactly when
    /// one of those slots holds it.
    pub proof fn lemma_flat_contains(archs: Seq<Archetype<C>>, idxs: Seq<usize>, e: usize)
        requires
            forall|t: int| 0 <= t < idxs.len() ==> (#[trigger] idxs[t] as int) < archs.len(),
        ensures
            Self::flat_members(archs, idxs).contains(e) <==> exists|t: int|
                0 <= t < idxs.len() && archs[#[trigger] idxs[t] as int].members().contains(e),
        decreases idxs.len(),
    {
        if idxs.len() > 0 {
            let front = idxs.drop_last();
            assert forall|t: int| 0 <= t < front.len() implies (#[trigger] front[t] as int)
                < archs.len() by {
                assert(front[t] == idxs[t]);
            }
            Self::lemma_flat_contains(archs, front, e);
            let flat = Self::flat_members(archs, idxs);
            let head = Self::flat_members(archs, front);
            let tailm = archs[idxs.last() as int].members();
            assert(flat == head + tailm);
            if flat.contains(e) {
                let i = choose|i: int| 0 <= i < flat.len() && flat[i] == e;
                if i < head.len() {
                    assert(head[i] == e);
                    assert(head.contains(e));
                    let t = choose|t: int|
                        0 <= t < front.len() && archs[#[trigger] front[t] as int].members().contains(
                            e,
                        );
                    assert(idxs[t] == front[t]);
                } else {
                    assert(tailm[i - head.len()] == e);
                    assert(tailm.contains(e));
                    assert(archs[idxs[idxs.len() - 1] as int].members().contains(e));
                }
            }
            if exists|t: int|
                0 <= t < idxs.len() && archs[#[trigger] idxs[t] as int].members().contains(e) {
                let t = choose|t: int|
                    0 <= t < idxs.len() && archs[#[trigger] idxs[t] as int].members().contains(e);
                if t < idxs.len() - 1 {
                    assert(front[t] == idxs[t]);
                    assert(archs[front[t] as int].members().contains(e));
                    assert(head.contains(e));
                    let i = choose|i: int| 0 <= i < head.len() && head[i] == e;
                    assert(flat[i] == e);
                } else {
                    let i = choose|i: int| 0 <= i < tailm.len() && tailm[i] == e;
                    assert(flat[head.len() + i] == e);
                }
            }
        }
    }

    /// The flattened members of distinct well-formed, member-disjoint slots
    /// are pairwise distinct.
    pub proof fn lemma_flat_distinct(&self, idxs: Seq<usize>)
        requires
            self.wf(),
            sorted_strict(idxs),
            forall|t: int| 0 <= t < idxs.len() ==> (#[trigger] idxs[t] as int) < self.arch_count(),
        ensures
            forall|i: int, j: int|
                0 <= i < j < Self::flat_members(self.archs(), idxs).len() ==> Self::flat_members(
                    self.archs(),
                    idxs,
                )[i] != Self::flat_members(self.archs(), idxs)[j],
        decreases idxs.len(),
    {
        if idxs.len() > 0 {
            let front = idxs.drop_last();
            assert forall|t: int| 0 <= t < front.len() implies (#[trigger] front[t] as int)
                < self.arch_count() by {
                assert(front[t] == idxs[t]);
            }
            assert(sorted_strict(front)) by {
                assert forall|x: int, y: int| 0 <= x < y < front.len() implies front[x]
                    < front[y] by {
                    assert(front[x] == idxs[x] && front[y] == idxs[y]);
                }
            }
            self.lemma_flat_distinct(front);
            let flat = Self::flat_members(self.archs(), idxs);
            let head = Self::flat_members(self.archs(), front);
            let last_arch = self.arch(idxs.last() as int);
            let tailm = last_arch.members();
            assert(flat == head + tailm);
            assert(last_arch.wf());
            assert forall|i: int, j: int| 0 <= i < j < flat.len() implies flat[i] != flat[j] by {
                if j < head.len() {
                    assert(flat[i] == head[i] && flat[j] == head[j]);
                } else if i >= head.len() {
                    assert(flat[i] == tailm[i - head.len()] && flat[j] == tailm[j - head.len()]);
                    last_arch.lemma_members_distinct(i - head.len(), j - head.len());
                } else {
                    assert(flat[i] == head[i] && flat[j] == tailm[j - head.len()]);
                    if flat[i] == flat[j] {
                        let e = flat[i];
                        assert(head.contains(e));
                        Self::lemma_flat_contains(self.archs(), front, e);
                        let t = choose|t: int|
                            0 <= t < front.len() && self.archs()[#[trigger] front[t] as int].members().contains(
                                e,
                            );
                        assert(tailm[j - head.len()] == e);
                        assert(tailm.contains(e));
                        self.arch(front[t] as int).lemma_members_has(e);
                        last_arch.lemma_members_has(e);
                        assert(front[t] < idxs.last());
                        assert(self.arch(front[t] as int).has_entity(e) && self.arch(
                            idxs.last() as int,
                        ).has_entity(e));
                    }
                }
            }
        }
    }

    /// Replacing one archetype by another with the same signature (and no
    /// member that already lives elsewhere) keeps the registry invariant.
    proof fn lemma_update_same_sig_wf(&self, prev: Self, a: int)
        requires
            prev.wf(),
            0 <= a < prev.arch_count(),
            self.archetypes@ == prev.archetypes@.update(a, self.archetypes@[a]),
            self.patterns@ == prev.patterns@,
            self.pattern_indices@ == prev.pattern_indices@,
            self.arch(a).wf(),
            self.arch(a).sig() == prev.arch(a).sig(),
            forall|e: usize|
                #[trigger] self.arch(a).has_entity(e) ==> prev.arch(a).has_entity(e)
                    || !prev.spec_has_entity(e),
        ensures
            self.wf(),
    {
        assert forall|b: int| 0 <= b < self.arch_count() implies (
        #[trigger] self.arch(b)).wf() by {
            if b != a {
                assert(self.arch(b) == prev.arch(b));
            }
        }
        assert forall|a1: int, a2: int| 0 <= a1 < a2 < self.arch_count() implies !sig_set_eq(
            #[trigger] self.arch(a1),
            #[trigger] self.arch(a2),
        ) by {
            assert(!sig_set_eq(prev.arch(a1), prev.arch(a2)));
            let k = choose|k: usize| !(prev.arch(a1).has_type(k) <==> prev.arch(a2).has_type(k));
            if a1 != a {
                assert(self.arch(a1) == prev.arch(a1));
            }
            if a2 != a {
                assert(self.arch(a2) == prev.arch(a2));
            }
            assert(self.arch(a1).has_type(k) == prev.arch(a1).has_type(k));
            assert(self.arch(a2).has_type(k) == prev.arch(a2).has_type(k));
        }
        assert forall|a1: int, a2: int, e: usize|
            #![trigger self.arch(a1).has_entity(e), self.arch(a2).has_entity(e)]
            0 <= a1 < self.arch_count() && 0 <= a2 < self.arch_count() && a1 != a2 implies !(
        self.arch(a1).has_entity(e) && self.arch(a2).has_entity(e)) by {
            if self.arch(a1).has_entity(e) && self.arch(a2).has_entity(e) {
                if a1 == a {
                    assert(self.arch(a2) == prev.arch(a2));
                    assert(prev.arch(a2).has_entity(e));
                    assert(prev.spec_has_entity(e));
                    assert(prev.arch(a).has_entity(e));
                    assert(!(prev.arch(a1).has_entity(e) && prev.arch(a2).has_entity(e)));
                } else if a2 == a {
                    assert(self.arch(a1) == prev.arch(a1));
                    assert(prev.arch(a1).has_entity(e));
                    assert(prev.spec_has_entity(e));
                    assert(prev.arch(a).has_entity(e));
                    assert(!(prev.arch(a1).has_entity(e) && prev.arch(a2).has_entity(e)));
                } else {
                    assert(self.arch(a1) == prev.arch(a1));
                    assert(self.arch(a2) == prev.arch(a2));
                    assert(!(prev.arch(a1).has_entity(e) && prev.arch(a2).has_entity(e)));
                }
            }
        }
        assert forall|p: int| 0 <= p < self.patterns@.len() implies (
        #[trigger] self.patterns@[p]).wf() by {
            assert(self.patterns@[p] == prev.patterns@[p]);
        }
        assert forall|p: int| 0 <= p < self.patterns@.len() implies self.cache_entry_ok(p) by {
            assert(prev.cache_entry_ok(p));
            assert(self.pattern_indices@[p] == prev.pattern_indices@[p]);
            assert forall|t: int|
                0 <= t < self.pattern_indices@[p]@.len() implies 0 <= (
            #[trigger] self.pattern_indices@[p]@[t]) < self.arch_count()
                && self.patterns@[p].spec_matches(
                self.arch(self.pattern_indices@[p]@[t] as int).sig(),
            ) by {
                let b = self.pattern_indices@[p]@[t] as int;
                if b != a {
                    assert(self.arch(b) == prev.arch(b));
                } else {
                    assert(self.arch(b).sig() == prev.arch(b).sig());
                }
            }
            assert forall|b: int|
                0 <= b < self.arch_count() && self.patterns@[p].spec_matches(
                    (#[trigger] self.arch(b)).sig(),
                ) implies self.pattern_indices@[p]@.contains(b as usize) by {
                if b != a {
                    assert(self.arch(b) == prev.arch(b));
                } else {
                    assert(self.arch(b).sig() == prev.arch(b).sig());
                    assert(prev.patterns@[p].spec_matches(prev.arch(b).sig()));
                }
            }
        }
    }

    /// Adds entity `id` with `bundle` to the archetype in slot `a`.  The
    /// bundle must spell out exactly that archetype's signature, and the
    /// entity must not live anywhere yet.
    pub(crate) fn insert_at(&mut self, a: usize, id: EntityId, bundle: ComponentBundle<C>)
        requires
            old(self).wf(),
            bundle.wf(),
            id@ < usize::MAX,
            (a as int) < old(self).arch_count(),
            !old(self).spec_has_entity(id@),
            forall|k: usize| #[trigger]
                bundle.has_key(k) <==> old(self).arch(a as int).has_type(k),
        ensures
            final(self).wf(),
            final(self).arch_count() == old(self).arch_count(),
            forall|b: int|
                0 <= b < old(self).arch_count() && b != a ==> final(self).arch(b) == old(
                    self,
                ).arch(b),
            final(self).arch(a as int).sig() == old(self).arch(a as int).sig(),
            final(self).arch(a as int).members() == old(self).arch(a as int).members().push(id@),
            forall|k: usize| #[trigger]
                bundle.has_key(k) ==> final(self).arch(a as int).comp(id@, k) == bundle.spec_get(
                    k,
                ),
            final(self).arch(a as int).others_unchanged(old(self).arch(a as int), id@),
            forall|e: usize| #[trigger]
                final(self).spec_has_entity(e) <==> old(self).spec_has_entity(e) || e == id@,
            final(self).spec_has_entity(id@),
            final(self).arch_of(id@) == a as int,
            final(self).arch(a as int).has_entity(id@),
    {
        let ghost prev = *old(self);
        let mut slot: Archetype<C> = Archetype::new();
        self.archetypes.set_and_swap(a, &mut slot);
        proof {
            assert(slot == prev.arch(a as int));
            assert(prev.arch(a as int).wf());
            assert(!prev.arch(a as int).has_entity(id@));
        }
        slot.insert(id, bundle);
        self.archetypes.set_and_swap(a, &mut slot);
        proof {
            assert(self.archetypes@ =~= prev.archetypes@.update(a as int, self.archetypes@[a as int]));
            assert forall|e: usize|
                #[trigger] self.arch(a as int).has_entity(e) implies prev.arch(a as int).has_entity(
                e,
            ) || !prev.spec_has_entity(e) by {
                if e == id@ {
                    assert(!prev.spec_has_entity(e));
                }
            }
            self.lemma_update_same_sig_wf(prev, a as int);
            assert forall|e: usize| #[trigger]
                self.spec_has_entity(e) <==> prev.spec_has_entity(e) || e == id@ by {
                if self.spec_has_entity(e) {
                    let b = choose|b: int|
                        0 <= b < self.arch_count() && (#[trigger] self.arch(b)).has_entity(e);
                    if b != a {
                        assert(self.arch(b) == prev.arch(b));
                        assert(prev.spec_has_entity(e));
                    } else {
                        if e != id@ {
                            assert(prev.arch(a as int).has_entity(e));
                            assert(prev.spec_has_entity(e));
                        }
                    }
                }
                if prev.spec_has_entity(e) {
                    let b = choose|b: int|
                        0 <= b < prev.arch_count() && (#[trigger] prev.arch(b)).has_entity(e);
                    if b != a {
                        assert(self.arch(b) == prev.arch(b));
                        assert(self.arch(b).has_entity(e));
                    } else {
                        assert(self.arch(b).has_entity(e));
                    }
                }
                if e == id@ {
                    assert(self.arch(a as int).has_entity(e));
                }
            }
            self.lemma_arch_of(id@);
            assert(self.arch(a as int).has_entity(id@));
        }
    }

    /// Swap-removes entity `id` from the archetype in slot `a`, returning
    /// the harvested bundle.
    pub(crate) fn remove_at(&mut self, a: usize, id: EntityId) -> (r: Option<ComponentBundle<C>>)
        requires
            old(self).wf(),
            (a as int) < old(self).arch_count(),
        ensures
            final(self).wf(),
            final(self).arch_count() == old(self).arch_count(),
            forall|b: int|
                0 <= b < old(self).arch_count() && b != a ==> final(self).arch(b) == old(
                    self,
                ).arch(b),
            final(self).arch(a as int).sig() == old(self).arch(a as int).sig(),
            !old(self).arch(a as int).has_entity(id@) ==> r is None && final(self).archs() == old(
                self,
            ).archs(),
            old(self).arch(a as int).has_entity(id@) ==> (r matches Some(bundle) && bundle.wf()
                && bundle@.len() == old(self).arch(a as int).sig().len() && (forall|j: int|
                0 <= j < bundle@.len() ==> (#[trigger] bundle@[j]).0 == old(self).arch(
                    a as int,
                ).sig()[j] && bundle@[j].1 == old(self).arch(a as int).comp(
                    id@,
                    old(self).arch(a as int).sig()[j],
                ))),
            old(self).arch(a as int).has_entity(id@) ==> final(self).arch(a as int).members()
                == old(self).arch(a as int).members().update(
                old(self).arch(a as int).row_of(id@),
                old(self).arch(a as int).members().last(),
            ).drop_last(),
            forall|e: usize| #[trigger]
                final(self).spec_has_entity(e) <==> old(self).spec_has_entity(e) && !(e == id@
                    && old(self).arch(a as int).has_entity(id@)),
            final(self).arch(a as int).others_comps_unchanged(old(self).arch(a as int), id@),
    {
        let ghost prev = *old(self);
        let mut slot: Archetype<C> = Archetype::new();
        self.archetypes.set_and_swap(a, &mut slot);
        proof {
            assert(slot == prev.arch(a as int));
            assert(prev.arch(a as int).wf());
        }
        let r = slot.remove(id);
        self.archetypes.set_and_swap(a, &mut slot);
        proof {
            assert(self.archetypes@ =~= prev.archetypes@.update(
                a as int,
                self.archetypes@[a as int],
            ));
            if !prev.arch(a as int).has_entity(id@) {
                assert(self.archetypes@ =~= prev.archetypes@);
            }
            self.lemma_update_same_sig_wf(prev, a as int);
            assert forall|e: usize| #[trigger]
                self.spec_has_entity(e) <==> prev.spec_has_entity(e) && !(e == id@ && prev.arch(
                a as int,
            ).has_entity(id@)) by {
                if self.spec_has_entity(e) {
                    let b = choose|b: int|
                        0 <= b < self.arch_count() && (#[trigger] self.arch(b)).has_entity(e);
                    if b != a {
                        assert(self.arch(b) == prev.arch(b));
                        assert(prev.spec_has_entity(e));
                        if e == id@ && prev.arch(a as int).has_entity(id@) {
                            assert(prev.arch(b).has_entity(e));
                            assert(!(prev.arch(b).has_entity(e) && prev.arch(
                                a as int,
                            ).has_entity(e)));
                        }
                    } else {
                        assert(prev.arch(a as int).has_entity(e));
                        assert(prev.spec_has_entity(e));
                        assert(!(e == id@ && prev.arch(a as int).has_entity(id@)));
                    }
                }
                if prev.spec_has_entity(e) && !(e == id@ && prev.arch(a as int).has_entity(
                    id@,
                )) {
                    let b = choose|b: int|
                        0 <= b < prev.arch_count() && (#[trigger] prev.arch(b)).has_entity(e);
                    if b != a {
                        assert(self.arch(b) == prev.arch(b));
                        assert(self.arch(b).has_entity(e));
                    } else {
                        assert(self.arch(b).has_entity(e));
                    }
                }
            }
        }
        r
    }

    /// Replaces the component of member `id` under `key` in the archetype
    /// in slot `a`, returning the previous value.
    pub(crate) fn replace_at(&mut self, a: usize, id: EntityId, key: usize, component: C) -> (r:
        Option<C>)
        requires
            old(self).wf(),
            (a as int) < old(self).arch_count(),
        ensures
            final(self).wf(),
            final(self).arch_count() == old(self).arch_count(),
            forall|b: int|
                0 <= b < old(self).arch_count() && b != a ==> final(self).arch(b) == old(
                    self,
                ).arch(b),
            final(self).arch(a as int).sig() == old(self).arch(a as int).sig(),
            final(self).arch(a as int).members() == old(self).arch(a as int).members(),
            !(old(self).arch(a as int).has_entity(id@) && old(self).arch(a as int).has_type(key))
                ==> r is None && final(self).archs() == old(self).archs(),
            old(self).arch(a as int).has_entity(id@) && old(self).arch(a as int).has_type(key)
                ==> r == Some(old(self).arch(a as int).comp(id@, key)) && final(self).arch(
                a as int,
            ).comp(id@, key) == component && (forall|k2: usize|
                #[trigger] old(self).arch(a as int).has_type(k2) && k2 != key ==> final(self).arch(
                    a as int,
                ).comp(id@, k2) == old(self).arch(a as int).comp(id@, k2)),
            final(self).arch(a as int).others_unchanged(old(self).arch(a as int), id@),
            forall|e: usize| #[trigger]
                final(self).spec_has_entity(e) <==> old(self).spec_has_entity(e),
    {
        let ghost prev = *old(self);
        let mut slot: Archetype<C> = Archetype::new();
        self.archetypes.set_and_swap(a, &mut slot);
        proof {
            assert(slot == prev.arch(a as int));
            assert(prev.arch(a as int).wf());
        }
        let r = slot.replace_component(id, key, component);
        self.archetypes.set_and_swap(a, &mut slot);
        proof {
            assert(self.archetypes@ =~= prev.archetypes@.update(
                a as int,
                self.archetypes@[a as int],
            ));
            if !(prev.arch(a as int).has_entity(id@) && prev.arch(a as int).has_type(key)) {
                assert(self.archetypes@ =~= prev.archetypes@);
            }
            self.lemma_update_same_sig_wf(prev, a as int);
            assert forall|e: usize| #[trigger]
                self.spec_has_entity(e) <==> prev.spec_has_entity(e) by {
                if self.spec_has_entity(e) {
                    let b = choose|b: int|
                        0 <= b < self.arch_count() && (#[trigger] self.arch(b)).has_entity(e);
                    if b != a {
                        assert(prev.arch(b).has_entity(e));
                    } else {
                        assert(prev.arch(a as int).has_entity(e));
                    }
                }
                if prev.spec_has_entity(e) {
                    let b = choose|b: int|
                        0 <= b < prev.arch_count() && (#[trigger] prev.arch(b)).has_entity(e);
                    if b != a {
                        assert(self.arch(b) == prev.arch(b));
                        assert(self.arch(b).has_entity(e));
                    } else {
                        assert(self.arch(b).has_entity(e));
                    }
                }
            }
        }
        r
    }
}

} // verus!
