//! Dense-array sparse set: the leaf index structure of the engine.
//!
//! A `SparseSet<V>` maps small integer keys to values with O(1) insert,
//! remove and lookup.  Entries live packed in `dense`; `sparse[key]` points
//! at the dense slot holding `key`.  Removal swap-removes the dense slot and
//! relinks the displaced entry's sparse pointer, so dense order is unstable
//! across removals but always gap-free.  Entity membership, per-entity change
//! records and every other type-keyed table in the engine reuse this one
//! structure.

use vstd::prelude::*;

verus! {

use vstd::pervasive::VecAdditionalExecFns;

pub struct SparseSet<V> {
    dense: Vec<(usize, V)>,
    sparse: Vec<usize>,
    len: usize,
}

impl<V> View for SparseSet<V> {
    type V = Seq<(usize, V)>;

    /// The dense sequence of (key, value) entries, in dense order.
    closed spec fn view(&self) -> Seq<(usize, V)> {
        self.dense@
    }
}

impl<V> SparseSet<V> {
    /// The internal linkage between the dense array and the sparse index:
    /// every dense entry's key points back at its own slot.  This implies
    /// that no key occurs twice.
    pub closed spec fn wf(&self) -> bool {
        &&& self.len == self.dense@.len()
        &&& forall|i: int|
            0 <= i < self.dense@.len() ==> (#[trigger] self.dense@[i]).0 < self.sparse@.len()
                && self.sparse@[self.dense@[i].0 as int] == i
    }

    /// Whether some dense entry carries `key`.
    pub open spec fn has_key(&self, key: usize) -> bool {
        exists|i: int| 0 <= i < self@.len() && (#[trigger] self@[i]).0 == key
    }

    /// The dense slot holding `key` (meaningful only when `has_key`).
    pub open spec fn idx_of(&self, key: usize) -> int {
        choose|i: int| 0 <= i < self@.len() && (#[trigger] self@[i]).0 == key
    }

    /// The value stored under `key` (meaningful only when `has_key`).
    pub open spec fn spec_get(&self, key: usize) -> V {
        self@[self.idx_of(key)].1
    }

    /// The key-to-value map the set represents.
    pub open spec fn contents(&self) -> Map<usize, V> {
        Map::new(|k: usize| self.has_key(k), |k: usize| self.spec_get(k))
    }

    /// In a well-formed set each key occupies at most one dense slot.
    pub proof fn lemma_key_unique(&self, i: int, j: int)
        requires
            self.wf(),
            0 <= i < self@.len(),
            0 <= j < self@.len(),
            self@[i].0 == self@[j].0,
        ensures
            i == j,
    {
    }

    /// `idx_of` names the one slot that holds `key`.
    pub proof fn lemma_idx_of(&self, key: usize)
        requires
            self.wf(),
            self.has_key(key),
        ensures
            0 <= self.idx_of(key) < self@.len(),
            self@[self.idx_of(key)].0 == key,
            forall|i: int|
                0 <= i < self@.len() && (#[trigger] self@[i]).0 == key ==> i == self.idx_of(key),
    {
        let at = self.idx_of(key);
        assert forall|i: int|
            0 <= i < self@.len() && (#[trigger] self@[i]).0 == key implies i == at by {
            self.lemma_key_unique(i, at);
        }
    }

    pub fn new() -> (r: Self)
        ensures
            r.wf(),
            r@ == Seq::<(usize, V)>::empty(),
    {
        SparseSet { dense: Vec::new(), sparse: Vec::new(), len: 0 }
    }

    pub fn with_capacity(capacity: usize) -> (r: Self)
        ensures
            r.wf(),
            r@ == Seq::<(usize, V)>::empty(),
    {
        SparseSet {
            dense: Vec::with_capacity(capacity),
            sparse: Vec::with_capacity(capacity),
            len: 0,
        }
    }

    pub fn len(&self) -> (r: usize)
        ensures
            r == self@.len(),
    {
        self.dense.len()
    }

    pub fn is_empty(&self) -> (r: bool)
        ensures
            r <==> self@.len() == 0,
    {
        self.dense.len() == 0
    }

    /// The dense slot of `key`, or `None` when the key is absent.
    pub fn index_of(&self, key: usize) -> (r: Option<usize>)
        requires
            self.wf(),
        ensures
            match r {
                Some(i) => self.has_key(key) && 0 <= i < self@.len() && self@[i as int].0 == key
                    && i as int == self.idx_of(key),
                None => !self.has_key(key),
            },
    {
        if key >= self.sparse.len() {
            return None;
        }
        let index = self.sparse[key];
        if index >= self.len || self.dense[index].0 != key {
            proof {
                if self.has_key(key) {
                    let w = choose|i: int|
                        0 <= i < self@.len() && (#[trigger] self@[i]).0 == key;
                    assert(self.sparse@[key as int] == w);
                }
            }
            return None;
        }
        proof {
            self.lemma_idx_of(key);
        }
        Some(index)
    }

    /// Inserts `key -> value`; overwrites in place (keeping dense order) when
    /// the key is already present, else appends a new dense entry.
    pub fn insert(&mut self, key: usize, value: V)
        requires
            old(self).wf(),
            key < usize::MAX,
        ensures
            final(self).wf(),
            old(self).has_key(key) ==> final(self)@ == old(self)@.update(
                old(self).idx_of(key),
                (key, value),
            ),
            !old(self).has_key(key) ==> final(self)@ == old(self)@.push((key, value)),
            final(self).has_key(key),
            final(self).spec_get(key) == value,
            forall|k2: usize| k2 != key ==> (final(self).has_key(k2) <==> old(self).has_key(k2)),
            forall|k2: usize|
                k2 != key && old(self).has_key(k2) ==> final(self).idx_of(k2) == old(self).idx_of(
                    k2,
                ) && final(self).spec_get(k2) == old(self).spec_get(k2),
            final(self).contents() == apply_op(old(self).contents(), SetOp::Insert(key, value)),
    {
        proof {
            if old(self).has_key(key) {
                old(self).lemma_idx_of(key);
            }
        }
        let index_opt = self.index_of(key);
        match index_opt {
            Some(index) => {
                self.dense.set(index, (key, value));
                proof {
                    self.lemma_insert_pointwise(*old(self), key);
                    assert(self.contents() =~= apply_op(
                        old(self).contents(),
                        SetOp::Insert(key, value),
                    ));
                }
            },
            None => {
                let ghost sparse0 = self.sparse@;
                while self.sparse.len() <= key
                    invariant
                        key < usize::MAX,
                        self.sparse@.len() >= sparse0.len(),
                        forall|j: int|
                            0 <= j < sparse0.len() ==> self.sparse@[j] == sparse0[j],
                        self.dense == old(self).dense,
                        self.len == old(self).len,
                    decreases key + 1 - self.sparse.len(),
                {
                    self.sparse.push(0);
                }
                self.sparse.set(key, self.len);
                self.dense.push((key, value));
                self.len = self.dense.len();
                proof {
                    assert forall|i: int| 0 <= i < self.dense@.len() implies (
                        #[trigger] self.dense@[i]).0 < self.sparse@.len()
                        && self.sparse@[self.dense@[i].0 as int] == i by {
                        if i < old(self).dense@.len() {
                            assert(self.dense@[i] == old(self).dense@[i]);
                            assert(old(self).dense@[i].0 != key);
                        }
                    }
                    self.lemma_insert_pointwise(*old(self), key);
                    assert(self.contents() =~= apply_op(
                        old(self).contents(),
                        SetOp::Insert(key, value),
                    ));
                }
            },
        }
    }

    /// The pointwise reading of `insert`'s effect on the dense sequence.
    proof fn lemma_insert_pointwise(&self, prev: Self, key: usize)
        requires
            prev.wf(),
            self.wf(),
            prev.has_key(key) ==> self@ == prev@.update(prev.idx_of(key), (key, self@[prev.idx_of(
                key,
            )].1)),
            !prev.has_key(key) ==> self@.len() == prev@.len() + 1 && self@[prev@.len() as int].0
                == key && forall|j: int| 0 <= j < prev@.len() ==> self@[j] == prev@[j],
        ensures
            self.has_key(key),
            forall|k2: usize| k2 != key ==> (self.has_key(k2) <==> prev.has_key(k2)),
            forall|k2: usize|
                k2 != key && prev.has_key(k2) ==> self.idx_of(k2) == prev.idx_of(k2)
                    && self.spec_get(k2) == prev.spec_get(k2),
    {
        let at = if prev.has_key(key) {
            prev.idx_of(key)
        } else {
            prev@.len() as int
        };
        if prev.has_key(key) {
            prev.lemma_idx_of(key);
        }
        assert(self@[at].0 == key);
        assert(self.has_key(key));
        assert forall|k2: usize| k2 != key implies (self.has_key(k2) <==> prev.has_key(
            k2,
        )) by {
            if self.has_key(k2) {
                let i = choose|i: int| 0 <= i < self@.len() && (#[trigger] self@[i]).0 == k2;
                assert(i != at);
                assert(prev@[i].0 == k2);
            }
            if prev.has_key(k2) {
                let i = choose|i: int| 0 <= i < prev@.len() && (#[trigger] prev@[i]).0 == k2;
                if prev.has_key(key) {
                    assert(prev@[at].0 == key);
                }
                assert(i != at);
                assert(self@[i].0 == k2);
            }
        }
        assert forall|k2: usize| k2 != key && prev.has_key(k2) implies self.idx_of(k2)
            == prev.idx_of(k2) && self.spec_get(k2) == prev.spec_get(k2) by {
            prev.lemma_idx_of(k2);
            self.lemma_idx_of(k2);
            let i = prev.idx_of(k2);
            assert(self@[i].0 == k2);
        }
    }

    /// Removes `key`, returning its value.  Swap-removes the dense slot and
    /// relinks the displaced entry; removing an absent key is a no-op.
    pub fn remove(&mut self, key: usize) -> (r: Option<V>)
        requires
            old(self).wf(),
        ensures
            final(self).wf(),
            !old(self).has_key(key) ==> r is None && final(self)@ == old(self)@,
            old(self).has_key(key) ==> r == Some(old(self).spec_get(key)) && final(self)@ == old(
                self,
            )@.update(old(self).idx_of(key), old(self)@.last()).drop_last(),
            !final(self).has_key(key),
            forall|k2: usize| k2 != key ==> (final(self).has_key(k2) <==> old(self).has_key(k2)),
            forall|k2: usize|
                k2 != key && old(self).has_key(k2) ==> final(self).spec_get(k2) == old(
                    self,
                ).spec_get(k2),
            final(self).contents() == apply_op(old(self).contents(), SetOp::Remove(key)),
    {
        let index_opt = self.index_of(key);
        match index_opt {
            Some(index) => {
                proof {
                    old(self).lemma_idx_of(key);
                }
                let entry = self.dense.swap_remove(index);
                self.len = self.len - 1;
                if index < self.len {
                    let swapped_key = self.dense[index].0;
                    proof {
                        assert(old(self).dense@[old(self).dense@.len() - 1].0 == swapped_key);
                    }
                    self.sparse.set(swapped_key, index);
                }
                proof {
                    self.lemma_remove_restores(*old(self), key, index as int);
                    assert(self.contents() =~= apply_op(
                        old(self).contents(),
                        SetOp::Remove(key),
                    ));
                }
                Some(entry.1)
            },
            None => {
                proof {
                    assert(self.contents() =~= apply_op(
                        old(self).contents(),
                        SetOp::Remove(key),
                    ));
                }
                None
            },
        }
    }

    /// After a swap-removal of `key` from slot `at`, the linkage invariant
    /// holds again and every other key keeps its value.
    proof fn lemma_remove_restores(&self, prev: Self, key: usize, at: int)
        requires
            prev.wf(),
            prev.has_key(key),
            at == prev.idx_of(key),
            self@ == prev@.update(at, prev@.last()).drop_last(),
            self.len == prev@.len() - 1,
            self.dense@ == self@,
            at < prev@.len() - 1 ==> self.sparse@ == prev.sparse@.update(
                prev@.last().0 as int,
                at as usize,
            ),
            at == prev@.len() - 1 ==> self.sparse@ == prev.sparse@,
        ensures
            self.wf(),
            !self.has_key(key),
            forall|k2: usize| k2 != key ==> (self.has_key(k2) <==> prev.has_key(k2)),
            forall|k2: usize|
                k2 != key && prev.has_key(k2) ==> self.spec_get(k2) == prev.spec_get(k2),
    {
        prev.lemma_idx_of(key);
        let last = prev@.len() - 1;
        assert forall|i: int| 0 <= i < self.dense@.len() implies (#[trigger] self.dense@[i]).0
            < self.sparse@.len() && self.sparse@[self.dense@[i].0 as int] == i by {
            if i == at {
                assert(self.dense@[i] == prev@[last]);
                assert(at < last);
            } else {
                assert(self.dense@[i] == prev@[i]);
                if prev@[i].0 == prev@[last].0 {
                    prev.lemma_key_unique(i, last);
                }
            }
        }
        assert(self.wf());
        assert forall|k2: usize| self.has_key(k2) implies k2 != key && prev.has_key(k2)
            && self.spec_get(k2) == prev.spec_get(k2) by {
            let i = choose|i: int| 0 <= i < self@.len() && (#[trigger] self@[i]).0 == k2;
            self.lemma_idx_of(k2);
            if i == at && at < last {
                assert(self@[i] == prev@[last]);
                if prev@[last].0 == prev@[at].0 {
                    prev.lemma_key_unique(last, at);
                }
                assert(k2 != key);
                prev.lemma_idx_of(k2);
            } else {
                assert(self@[i] == prev@[i]);
                if prev@[i].0 == prev@[at].0 {
                    prev.lemma_key_unique(i, at);
                }
                assert(k2 != key);
                prev.lemma_idx_of(k2);
            }
            assert(self.spec_get(k2) == self@[i].1);
        }
        assert forall|k2: usize| k2 != key && prev.has_key(k2) implies self.has_key(k2) by {
            prev.lemma_idx_of(k2);
            let i = prev.idx_of(k2);
            if i == last {
                if at < last {
                    assert(self@[at].0 == k2);
                } else {
                    prev.lemma_key_unique(i, at);
                }
            } else {
                assert(self@[i].0 == k2);
            }
        }
    }

    /// Empties the set.
    pub fn clear(&mut self)
        ensures
            final(self).wf(),
            final(self)@ == Seq::<(usize, V)>::empty(),
    {
        self.dense.clear();
        self.sparse.clear();
        self.len = 0;
    }

    pub fn contains(&self, key: usize) -> (r: bool)
        requires
            self.wf(),
        ensures
            r == self.has_key(key),
    {
        self.index_of(key).is_some()
    }

    pub fn get(&self, key: usize) -> (r: Option<&V>)
        requires
            self.wf(),
        ensures
            match r {
                Some(v) => self.has_key(key) && *v == self.spec_get(key),
                None => !self.has_key(key),
            },
    {
        match self.index_of(key) {
            Some(index) => Some(&self.dense[index].1),
            None => None,
        }
    }

    /// Swaps the stored value of a present key for `value`, in place,
    /// returning the previous value.  Dense order is untouched.
    pub fn replace(&mut self, key: usize, value: V) -> (r: V)
        requires
            old(self).wf(),
            old(self).has_key(key),
        ensures
            final(self).wf(),
            r == old(self).spec_get(key),
            final(self)@ == old(self)@.update(old(self).idx_of(key), (key, value)),
            final(self).has_key(key),
            final(self).spec_get(key) == value,
            forall|k2: usize| k2 != key ==> (final(self).has_key(k2) <==> old(self).has_key(k2)),
            forall|k2: usize|
                k2 != key && old(self).has_key(k2) ==> final(self).idx_of(k2) == old(self).idx_of(
                    k2,
                ) && final(self).spec_get(k2) == old(self).spec_get(k2),
    {
        proof {
            old(self).lemma_idx_of(key);
        }
        let index = self.index_of(key).unwrap();
        let mut entry = (key, value);
        self.dense.set_and_swap(index, &mut entry);
        proof {
            self.lemma_insert_pointwise(*old(self), key);
        }
        entry.1
    }

    /// The dense entries, in dense order.
    pub fn iter(&self) -> (r: &Vec<(usize, V)>)
        ensures
            r@ == self@,
    {
        &self.dense
    }

    /// Surrenders the dense entries, in dense order.
    pub fn into_vec(self) -> (r: Vec<(usize, V)>)
        ensures
            r@ == self@,
    {
        self.dense
    }

    /// The keys, in dense order.
    pub fn keys(&self) -> (r: Vec<usize>)
        ensures
            r@.len() == self@.len(),
            forall|i: int| 0 <= i < r@.len() ==> r@[i] == (#[trigger] self@[i]).0,
    {
        let mut out: Vec<usize> = Vec::new();
        let mut i: usize = 0;
        while i < self.dense.len()
            invariant
                i <= self.dense@.len(),
                out@.len() == i,
                forall|j: int| 0 <= j < i ==> out@[j] == (#[trigger] self.dense@[j]).0,
            decreases self.dense@.len() - i,
        {
            out.push(self.dense[i].0);
            i = i + 1;
        }
        out
    }
}


/// One sparse-set edit, for stating the set's net-effect law.
pub enum SetOp<V> {
    /// Store a value under the key (overwriting any old one).
    Insert(usize, V),
    /// Drop the key (a no-op when absent).
    Remove(usize),
}

/// Whether the edit concerns key `k`.
pub open spec fn op_touches<V>(op: SetOp<V>, k: usize) -> bool {
    match op {
        SetOp::Insert(k2, _) => k2 == k,
        SetOp::Remove(k2) => k2 == k,
    }
}

/// The map after one edit: exactly what `insert` and `remove` do to a
/// sparse set's contents.
pub open spec fn apply_op<V>(m: Map<usize, V>, op: SetOp<V>) -> Map<usize, V> {
    match op {
        SetOp::Insert(k, v) => m.insert(k, v),
        SetOp::Remove(k) => m.remove(k),
    }
}

/// The map after a whole sequence of edits, applied in order.
pub open spec fn apply_ops<V>(m: Map<usize, V>, ops: Seq<SetOp<V>>) -> Map<usize, V>
    decreases ops.len(),
{
    if ops.len() == 0 {
        m
    } else {
        apply_op(apply_ops(m, ops.drop_last()), ops.last())
    }
}

/// Whether any edit in the sequence concerns key `k`.
pub open spec fn some_op_touches<V>(ops: Seq<SetOp<V>>, k: usize) -> bool
    decreases ops.len(),
{
    if ops.len() == 0 {
        false
    } else {
        op_touches(ops.last(), k) || some_op_touches(ops.drop_last(), k)
    }
}

/// Whether the net trailing edit for key `k` is an insertion.
pub open spec fn net_insert<V>(ops: Seq<SetOp<V>>, k: usize) -> bool
    decreases ops.len(),
{
    if ops.len() == 0 {
        false
    } else if op_touches(ops.last(), k) {
        ops.last() is Insert
    } else {
        net_insert(ops.drop_last(), k)
    }
}

/// The sparse-set law: for any sequence of insert and remove edits,
/// a key is present exactly when the net trailing edit for it was an
/// insertion (and an untouched key keeps its initial presence; removing
/// an absent key is a no-op, as `apply_op` on an absent key shows).
/// `insert` and `remove` each ensure that they transform `contents()` by
/// one `apply_op` step, which ties this law to the executable set.
pub proof fn lemma_net_presence<V>(m: Map<usize, V>, ops: Seq<SetOp<V>>, k: usize)
    ensures
        apply_ops(m, ops).contains_key(k) == (if some_op_touches(ops, k) {
            net_insert(ops, k)
        } else {
            m.contains_key(k)
        }),
    decreases ops.len(),
{
    if ops.len() > 0 {
        lemma_net_presence(m, ops.drop_last(), k);
    }
}

} // verus!
