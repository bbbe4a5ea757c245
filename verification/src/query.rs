//! Query descriptions: key lists, normalized patterns, and signature tests.
//!
//! A query names the type keys an entity must carry (required) and the keys
//! it must not (excluded).  Patterns are normalized — sorted and
//! deduplicated — so that one distinct (fetch, filter) combination has one
//! canonical form, which the registry uses as its memoization key.

use vstd::prelude::*;

verus! {

use crate::archetype::Archetype;

broadcast use vstd::seq_lib::group_seq_properties;

/// Strictly ascending: sorted with no duplicates.
pub open spec fn sorted_strict(s: Seq<usize>) -> bool {
    forall|a: int, b: int| 0 <= a < b < s.len() ==> s[a] < s[b]
}

/// Two strictly ascending sequences over the same key set are equal:
/// normalization is canonical.
pub proof fn lemma_sorted_set_unique(s1: Seq<usize>, s2: Seq<usize>)
    requires
        sorted_strict(s1),
        sorted_strict(s2),
        forall|k: usize| s1.contains(k) <==> s2.contains(k),
    ensures
        s1 == s2,
    decreases s1.len(),
{
    if s1.len() == 0 {
        if s2.len() > 0 {
            assert(s2.contains(s2[0]));
            assert(s1.contains(s2[0]));
        }
        assert(s1 =~= s2);
    } else {
        assert(s1.contains(s1[0]));
        assert(s2.contains(s1[0]));
        if s2.len() == 0 {
            assert(!s2.contains(s1[0]));
        }
        let i = choose|i: int| 0 <= i < s2.len() && s2[i] == s1[0];
        if i > 0 {
            assert(s2[0] < s2[i]);
            assert(s2.contains(s2[0]));
            assert(s1.contains(s2[0]));
            let j = choose|j: int| 0 <= j < s1.len() && s1[j] == s2[0];
            if j > 0 {
                assert(s1[0] < s1[j]);
            }
        }
        assert(s2[0] == s1[0]);
        let t1 = s1.skip(1);
        let t2 = s2.skip(1);
        assert forall|k: usize| t1.contains(k) <==> t2.contains(k) by {
            contains_tail(s1, k);
            contains_tail(s2, k);
        }
        assert(sorted_strict(t1));
        assert(sorted_strict(t2));
        lemma_sorted_set_unique(t1, t2);
        assert(s1 =~= s2);
    }
}

/// Membership in the tail of a strictly sorted sequence is membership above
/// the head.
proof fn contains_tail(s: Seq<usize>, k: usize)
    requires
        sorted_strict(s),
        s.len() > 0,
    ensures
        s.skip(1).contains(k) <==> s.contains(k) && k != s[0],
{
    if s.skip(1).contains(k) {
        let i = choose|i: int| 0 <= i < s.skip(1).len() && s.skip(1)[i] == k;
        assert(s[i + 1] == k);
        assert(s[0] < s[i + 1]);
    }
    if s.contains(k) && k != s[0] {
        let i = choose|i: int| 0 <= i < s.len() && s[i] == k;
        assert(i != 0);
        assert(s.skip(1)[i - 1] == k);
    }
}

/// How one key list relates to another, viewed as sets.
pub enum QueryComparison {
    /// Same key set.
    Exact,
    /// A strict subset of the other key set.
    Partial,
    /// Some key is missing from the other list.
    NoMatch,
}

impl QueryComparison {
    pub fn is_exact(&self) -> (r: bool)
        ensures
            r == (self is Exact),
    {
        match self {
            QueryComparison::Exact => true,
            _ => false,
        }
    }

    pub fn is_some(&self) -> (r: bool)
        ensures
            r == !(self is NoMatch),
    {
        match self {
            QueryComparison::NoMatch => false,
            _ => true,
        }
    }
}

/// A plain list of type keys, as tendered by a caller.
pub struct Query {
    keys: Vec<usize>,
}

impl View for Query {
    type V = Seq<usize>;

    closed spec fn view(&self) -> Seq<usize> {
        self.keys@
    }
}

impl Query {
    /// Whether the list names `k`.
    pub open spec fn spec_contains(&self, k: usize) -> bool {
        self@.contains(k)
    }

    pub fn new(keys: Vec<usize>) -> (r: Self)
        ensures
            r@ == keys@,
    {
        Query { keys }
    }

    /// The sorted, deduplicated form of this key list: the canonical
    /// spelling of its key set.
    pub fn normalize(&self) -> (r: Self)
        ensures
            sorted_strict(r@),
            forall|k: usize| #[trigger] r@.contains(k) <==> self@.contains(k),
    {
        let mut out: Vec<usize> = Vec::new();
        let mut i: usize = 0;
        while i < self.keys.len()
            invariant
                i <= self.keys@.len(),
                sorted_strict(out@),
                forall|k: usize| #[trigger]
                    out@.contains(k) <==> self.keys@.take(i as int).contains(k),
            decreases self.keys@.len() - i,
        {
            let x = self.keys[i];
            let ghost out0 = out@;
            let mut p: usize = 0;
            while p < out.len() && out[p] < x
                invariant
                    out@ == out0,
                    p <= out@.len(),
                    forall|t: int| 0 <= t < p ==> out@[t] < x,
                decreases out@.len() - p,
            {
                p = p + 1;
            }
            if p == out.len() || out[p] > x {
                out.insert(p, x);
                proof {
                    assert forall|a: int, b: int| 0 <= a < b < out@.len() implies out@[a]
                        < out@[b] by {
                        let pa = if a < p {
                            a
                        } else {
                            a - 1
                        };
                        let pb = if b <= p {
                            b - 1
                        } else {
                            b - 1
                        };
                        if a < p && b > p {
                            assert(out@[a] == out0[a] && out@[b] == out0[b - 1]);
                            if b - 1 == p {
                                assert(out0[p as int] > x && out0[a] < x);
                            }
                        } else if b == p {
                            assert(out@[a] == out0[a] && out@[b] == x);
                        } else if a == p {
                            assert(out@[a] == x && out@[b] == out0[b - 1]);
                            assert(b - 1 >= p);
                            if b - 1 == p {
                                assert(out0[p as int] > x);
                            } else {
                                assert(out0[p as int] < out0[b - 1]);
                                assert(out0[p as int] > x);
                            }
                        } else if b < p {
                            assert(out@[a] == out0[a] && out@[b] == out0[b]);
                        } else {
                            assert(a > p);
                            assert(out@[a] == out0[a - 1] && out@[b] == out0[b - 1]);
                        }
                    }
                    assert forall|k: usize| #[trigger]
                        out@.contains(k) <==> self.keys@.take(i as int + 1).contains(k) by {
                        if out@.contains(k) {
                            let t = choose|t: int| 0 <= t < out@.len() && out@[t] == k;
                            if t == p {
                                assert(self.keys@.take(i as int + 1)[i as int] == x);
                            } else {
                                let t0 = if t < p {
                                    t
                                } else {
                                    t - 1
                                };
                                assert(out0[t0] == k);
                                assert(out0.contains(k));
                                assert(self.keys@.take(i as int).contains(k));
                                let u = choose|u: int|
                                    0 <= u < i && #[trigger] self.keys@[u] == k;
                                assert(self.keys@.take(i as int + 1)[u] == k);
                            }
                        }
                        if self.keys@.take(i as int + 1).contains(k) {
                            let u = choose|u: int|
                                0 <= u < i + 1 && #[trigger] self.keys@[u] == k;
                            if u < i {
                                assert(self.keys@.take(i as int)[u] == k);
                                assert(out0.contains(k));
                                let t = choose|t: int|
                                    0 <= t < out0.len() && out0[t] == k;
                                if t < p {
                                    assert(out@[t] == k);
                                } else {
                                    assert(out@[t + 1] == k);
                                }
                            } else {
                                assert(k == x);
                                assert(out@[p as int] == x);
                            }
                        }
                    }
                }
            } else {
                proof {
                    assert(out@[p as int] == x);
                    assert(out@.contains(x));
                    assert forall|k: usize| #[trigger]
                        out@.contains(k) <==> self.keys@.take(i as int + 1).contains(k) by {
                        if out@.contains(k) {
                            assert(self.keys@.take(i as int).contains(k));
                            let u = choose|u: int| 0 <= u < i && #[trigger] self.keys@[u] == k;
                            assert(self.keys@.take(i as int + 1)[u] == k);
                        }
                        if self.keys@.take(i as int + 1).contains(k) {
                            let u = choose|u: int|
                                0 <= u < i + 1 && #[trigger] self.keys@[u] == k;
                            if u < i {
                                assert(self.keys@.take(i as int)[u] == k);
                            } else {
                                assert(k == x);
                            }
                        }
                    }
                }
            }
            i = i + 1;
        }
        proof {
            assert(self.keys@.take(self.keys@.len() as int) =~= self.keys@);
        }
        Query { keys: out }
    }

    /// Compares this key list to `other`, both taken as sets: `Exact` when
    /// the sets are equal, `Partial` when this is a strict subset, `NoMatch`
    /// when some key here is missing there.  Both lists must be free of
    /// duplicates (as `normalize` leaves them).
    pub fn compare_to(&self, other: &Query) -> (r: QueryComparison)
        requires
            forall|a: int, b: int|
                0 <= a < b < self@.len() ==> self@[a] != self@[b],
            forall|a: int, b: int|
                0 <= a < b < other@.len() ==> other@[a] != other@[b],
        ensures
            r is Exact <==> (forall|k: usize| #[trigger] self@.contains(k) <==> other@.contains(
                k,
            )),
            r is NoMatch <==> (exists|k: usize| #[trigger] self@.contains(k) && !other@.contains(
                k,
            )),
    {
        let mut i: usize = 0;
        while i < self.keys.len()
            invariant
                i <= self@.len(),
                forall|a: int, b: int| 0 <= a < b < self@.len() ==> self@[a] != self@[b],
                forall|a: int, b: int| 0 <= a < b < other@.len() ==> other@[a] != other@[b],
                forall|t: int| 0 <= t < i ==> other@.contains(#[trigger] self@[t]),
            decreases self@.len() - i,
        {
            if !other.contains_key(self.keys[i]) {
                proof {
                    assert(self@.contains(self@[i as int]));
                }
                return QueryComparison::NoMatch;
            }
            i = i + 1;
        }
        proof {
            assert forall|k: usize| #[trigger] self@.contains(k) implies other@.contains(k) by {
                let t = choose|t: int| 0 <= t < self@.len() && self@[t] == k;
            }
        }
        if self.keys.len() == other.keys.len() {
            proof {
                lemma_distinct_subset_same_len(self@, other@);
            }
            QueryComparison::Exact
        } else {
            proof {
                lemma_distinct_subset_shorter(self@, other@);
            }
            QueryComparison::Partial
        }
    }

    /// Whether the list names `k`, by linear scan.
    pub fn contains_key(&self, k: usize) -> (r: bool)
        ensures
            r == self@.contains(k),
    {
        let mut i: usize = 0;
        while i < self.keys.len()
            invariant
                i <= self@.len(),
                forall|t: int| 0 <= t < i ==> self@[t] != k,
            decreases self@.len() - i,
        {
            if self.keys[i] == k {
                proof {
                    assert(self@.contains(k));
                }
                return true;
            }
            i = i + 1;
        }
        proof {
            if self@.contains(k) {
                let t = choose|t: int| 0 <= t < self@.len() && self@[t] == k;
            }
        }
        false
    }

}

/// A duplicate-free list contained in an equally long duplicate-free
/// list covers it.
pub proof fn lemma_distinct_subset_same_len(s1: Seq<usize>, s2: Seq<usize>)
        requires
            forall|a: int, b: int| 0 <= a < b < s1.len() ==> s1[a] != s1[b],
            forall|a: int, b: int| 0 <= a < b < s2.len() ==> s2[a] != s2[b],
            forall|k: usize| #[trigger] s1.contains(k) ==> s2.contains(k),
            s1.len() == s2.len(),
        ensures
            forall|k: usize| #[trigger] s2.contains(k) ==> s1.contains(k),
        decreases s1.len(),
    {
        if s1.len() > 0 {
            let x = s1.last();
            assert(s1.contains(x));
            let i = choose|i: int| 0 <= i < s2.len() && s2[i] == x;
            let r1 = s1.drop_last();
            let r2 = s2.update(i, s2.last()).drop_last();
            assert forall|a: int, b: int| 0 <= a < b < r2.len() implies r2[a] != r2[b] by {
                if a == i || b == i {
                }
            }
            assert forall|k: usize| #[trigger] r1.contains(k) implies r2.contains(k) by {
                let t = choose|t: int| 0 <= t < r1.len() && r1[t] == k;
                assert(s1[t] == k);
                assert(k != x);
                assert(s1.contains(k));
                let u = choose|u: int| 0 <= u < s2.len() && s2[u] == k;
                assert(u != i);
                if u < s2.len() - 1 {
                    assert(r2[u] == k);
                } else {
                    assert(i < s2.len() - 1);
                    assert(r2[i] == k);
                }
            }
            assert forall|a: int, b: int| 0 <= a < b < r1.len() implies r1[a] != r1[b] by {}
            lemma_distinct_subset_same_len(r1, r2);
            assert forall|k: usize| #[trigger] s2.contains(k) implies s1.contains(k) by {
                if k == x {
                } else {
                    let u = choose|u: int| 0 <= u < s2.len() && s2[u] == k;
                    assert(u != i);
                    if u < s2.len() - 1 {
                        assert(r2[u] == k);
                    } else {
                        assert(r2[i] == k);
                    }
                    assert(r2.contains(k));
                    assert(r1.contains(k));
                    let t = choose|t: int| 0 <= t < r1.len() && r1[t] == k;
                    assert(s1[t] == k);
                }
            }
        } else {
            if exists|k: usize| #[trigger] s2.contains(k) {
            }
        }
    }

/// A duplicate-free proper-length subset misses some key of the longer
/// list.
pub proof fn lemma_distinct_subset_shorter(s1: Seq<usize>, s2: Seq<usize>)
        requires
            forall|a: int, b: int| 0 <= a < b < s1.len() ==> s1[a] != s1[b],
            forall|a: int, b: int| 0 <= a < b < s2.len() ==> s2[a] != s2[b],
            forall|k: usize| #[trigger] s1.contains(k) ==> s2.contains(k),
            s1.len() != s2.len(),
        ensures
            !(forall|k: usize| #[trigger] s1.contains(k) <==> s2.contains(k)),
        decreases s1.len(),
    {
        if s1.len() > 0 {
            let x = s1.last();
            assert(s1.contains(x));
            assert(s2.contains(x));
            let i = choose|i: int| 0 <= i < s2.len() && s2[i] == x;
            let r1 = s1.drop_last();
            let r2 = s2.update(i, s2.last()).drop_last();
            assert forall|a: int, b: int| 0 <= a < b < r2.len() implies r2[a] != r2[b] by {}
            assert forall|k: usize| #[trigger] r1.contains(k) implies r2.contains(k) by {
                let t = choose|t: int| 0 <= t < r1.len() && r1[t] == k;
                assert(s1[t] == k);
                assert(k != x);
                assert(s1.contains(k));
                let u = choose|u: int| 0 <= u < s2.len() && s2[u] == k;
                assert(u != i);
                if u < s2.len() - 1 {
                    assert(r2[u] == k);
                } else {
                    assert(i < s2.len() - 1);
                    assert(r2[i] == k);
                }
            }
            lemma_distinct_subset_shorter(r1, r2);
            let w = choose|k: usize| !(#[trigger] r1.contains(k) <==> r2.contains(k));
            assert(!r1.contains(w) && r2.contains(w));
            assert(w != x);
            let u = choose|u: int| 0 <= u < r2.len() && r2[u] == w;
            if u == i {
                assert(s2[s2.len() - 1] == w);
            } else {
                assert(s2[u] == w);
            }
            assert(s2.contains(w));
            if s1.contains(w) {
                let t = choose|t: int| 0 <= t < s1.len() && s1[t] == w;
                assert(t < s1.len() - 1);
                assert(r1[t] == w);
            }
        } else {
            assert(s2.contains(s2[0]));
            if s1.contains(s2[0]) {
            }
        }
    }

/// A normalized query pattern: required keys and excluded keys, each sorted
/// and deduplicated, tested as a whole against archetype signatures.
pub struct QueryPattern {
    required: Vec<usize>,
    excluded: Vec<usize>,
}

impl QueryPattern {
    /// The required keys, in canonical order.
    pub closed spec fn req(&self) -> Seq<usize> {
        self.required@
    }

    /// The excluded keys, in canonical order.
    pub closed spec fn excl(&self) -> Seq<usize> {
        self.excluded@
    }

    /// Both halves canonical.
    pub open spec fn wf(&self) -> bool {
        sorted_strict(self.req()) && sorted_strict(self.excl())
    }

    /// Whether a signature satisfies this pattern: it carries every required
    /// key and none of the excluded ones.
    pub open spec fn spec_matches(&self, sig: Seq<usize>) -> bool {
        (forall|k: usize| self.req().contains(k) ==> #[trigger] sig.contains(k)) && (forall|
            k: usize,
        | self.excl().contains(k) ==> !(#[trigger] sig.contains(k)))
    }

    /// Builds the canonical pattern of the two key lists.
    pub fn new(required: Query, excluded: Query) -> (r: Self)
        ensures
            r.wf(),
            forall|k: usize| #[trigger] r.req().contains(k) <==> required@.contains(k),
            forall|k: usize| #[trigger] r.excl().contains(k) <==> excluded@.contains(k),
    {
        let req_n = required.normalize();
        let excl_n = excluded.normalize();
        let ghost rq = req_n@;
        let ghost ex = excl_n@;
        let r = QueryPattern { required: req_n.into_keys(), excluded: excl_n.into_keys() };
        proof {
            assert(r.req() == rq && r.excl() == ex);
            assert forall|k: usize| #[trigger] r.req().contains(k) <==> required@.contains(
                k,
            ) by {
                assert(rq.contains(k) <==> required@.contains(k));
            }
            assert forall|k: usize| #[trigger] r.excl().contains(k) <==> excluded@.contains(
                k,
            ) by {
                assert(ex.contains(k) <==> excluded@.contains(k));
            }
        }
        r
    }

    /// Whether the archetype's signature satisfies the pattern.
    pub fn filter<C>(&self, archetype: &Archetype<C>) -> (r: bool)
        requires
            archetype.wf(),
        ensures
            r == self.spec_matches(archetype.sig()),
    {
        let mut i: usize = 0;
        while i < self.required.len()
            invariant
                archetype.wf(),
                i <= self.req().len(),
                forall|t: int| 0 <= t < i ==> archetype.sig().contains(#[trigger] self.req()[t]),
            decreases self.req().len() - i,
        {
            if !archetype.has_component(self.required[i]) {
                proof {
                    assert(self.req().contains(self.req()[i as int]));
                }
                return false;
            }
            i = i + 1;
        }
        let mut j: usize = 0;
        while j < self.excluded.len()
            invariant
                archetype.wf(),
                j <= self.excl().len(),
                forall|t: int| 0 <= t < j ==> !archetype.sig().contains(#[trigger] self.excl()[t]),
                forall|t: int|
                    0 <= t < self.req().len() ==> archetype.sig().contains(#[trigger] self.req()[t]),
            decreases self.excl().len() - j,
        {
            if archetype.has_component(self.excluded[j]) {
                proof {
                    assert(self.excl().contains(self.excl()[j as int]));
                }
                return false;
            }
            j = j + 1;
        }
        proof {
            assert forall|k: usize| self.req().contains(k) implies #[trigger] archetype.sig().contains(
                k,
            ) by {
                let t = choose|t: int| 0 <= t < self.req().len() && self.req()[t] == k;
            }
            assert forall|k: usize| self.excl().contains(k) implies !(
            #[trigger] archetype.sig().contains(k)) by {
                let t = choose|t: int| 0 <= t < self.excl().len() && self.excl()[t] == k;
            }
        }
        true
    }

    /// Whether two patterns are the same; canonical form makes this a plain
    /// list comparison.
    pub fn same_as(&self, other: &QueryPattern) -> (r: bool)
        ensures
            r == (self.req() == other.req() && self.excl() == other.excl()),
    {
        vec_eq(&self.required, &other.required) && vec_eq(&self.excluded, &other.excluded)
    }
}

impl Query {
    /// Surrenders the key list.
    pub fn into_keys(self) -> (r: Vec<usize>)
        ensures
            r@ == self@,
    {
        self.keys
    }
}

/// Elementwise equality of two key vectors.
fn vec_eq(a: &Vec<usize>, b: &Vec<usize>) -> (r: bool)
    ensures
        r == (a@ == b@),
{
    if a.len() != b.len() {
        proof {
            assert(a@ != b@);
        }
        return false;
    }
    let mut i: usize = 0;
    while i < a.len()
        invariant
            a@.len() == b@.len(),
            i <= a@.len(),
            forall|t: int| 0 <= t < i ==> a@[t] == b@[t],
        decreases a@.len() - i,
    {
        if a[i] != b[i] {
            return false;
        }
        i = i + 1;
    }
    proof {
        assert(a@ =~= b@);
    }
    true
}

} // verus!
