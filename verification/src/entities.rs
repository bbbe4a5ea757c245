//! Entity identities and their allocator.
//!
//! An `EntityId` is an opaque recycled integer handle with no intrinsic
//! data.  `Entities` hands ids out from a free list when one is available
//! and increments a counter otherwise; the world returns an id to the free
//! list only once no pending change record references it, so a reuse never
//! collides with an unobserved final state.

use vstd::prelude::*;

verus! {

#[derive(Clone, Copy, PartialEq, Eq, Hash, Debug, Structural)]
pub struct EntityId(usize);

impl View for EntityId {
    type V = usize;

    /// The raw integer behind the handle.
    closed spec fn view(&self) -> usize {
        self.0
    }
}

impl EntityId {
    pub fn new(id: usize) -> (r: Self)
        ensures
            r@ == id,
    {
        EntityId(id)
    }

    pub fn id(&self) -> (r: usize)
        ensures
            r == self@,
    {
        self.0
    }
}

/// The id allocator: a free list of returned ids plus a high-water counter.
pub struct Entities {
    available_ids: Vec<usize>,
    next_id: usize,
}

impl Entities {
    /// Ids waiting to be reused, most recently returned last.
    pub closed spec fn free(&self) -> Seq<usize> {
        self.available_ids@
    }

    /// The lowest id never yet handed out.
    pub closed spec fn next(&self) -> usize {
        self.next_id
    }

    pub fn new() -> (r: Self)
        ensures
            r.free() == Seq::<usize>::empty(),
            r.next() == 0,
    {
        Entities { available_ids: Vec::new(), next_id: 0 }
    }

    /// Pops a free id if one exists, else mints `next()`.
    pub fn spawn(&mut self) -> (r: usize)
        requires
            old(self).free().len() == 0 ==> old(self).next() < usize::MAX,
        ensures
            old(self).free().len() > 0 ==> r == old(self).free().last() && final(self).free()
                == old(self).free().drop_last() && final(self).next() == old(self).next(),
            old(self).free().len() == 0 ==> r == old(self).next() && final(self).next() == old(
                self,
            ).next() + 1 && final(self).free() == old(self).free(),
    {
        match self.available_ids.pop() {
            Some(id) => id,
            None => {
                let id = self.next_id;
                self.next_id = self.next_id + 1;
                id
            },
        }
    }

    /// Returns `id` to the free list.
    pub fn despawn(&mut self, id: usize)
        ensures
            final(self).free() == old(self).free().push(id),
            final(self).next() == old(self).next(),
    {
        self.available_ids.push(id);
    }
}

} // verus!
