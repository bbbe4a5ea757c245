//! The engine: a world plus a fixed list of systems run once per step.
//!
//! A system is a caller-supplied update routine invoked synchronously, in
//! registration order, with exclusive access to the world.  The trait asks
//! each system to leave the world well formed; implementations live with
//! the caller, which is exactly the collaboration the engine is specified
//! against.

use vstd::prelude::*;

verus! {

use crate::component::ComponentBundle;
use crate::entities::EntityId;
use crate::world::World;

/// One update routine.  An implementation may edit the world freely but
/// must leave it well formed.
pub trait System<C> {
    fn run(&mut self, world: &mut World<C>)
        requires
            old(world).wf(),
        ensures
            final(world).wf(),
    ;
}

/// A standalone collection of systems and a world.
pub struct Engine<C, S> {
    world: World<C>,
    systems: Vec<S>,
}

impl<C, S: System<C>> Engine<C, S> {
    /// The world the engine drives.
    pub closed spec fn spec_world(&self) -> World<C> {
        self.world
    }

    /// The registered systems, in run order.
    pub closed spec fn spec_systems(&self) -> Seq<S> {
        self.systems@
    }

    /// The engine's world is well formed.
    pub open spec fn wf(&self) -> bool {
        self.spec_world().wf()
    }

    pub fn new() -> (r: Self)
        ensures
            r.wf(),
            r.spec_world().spec_next_id() == 0,
            r.spec_world().can_spawn(),
            r.spec_systems() == Seq::<S>::empty(),
            forall|e: usize| !(#[trigger] r.spec_world().live(e)),
            forall|k: usize| !(#[trigger] r.spec_world().res_has(k)),
    {
        Engine { world: World::new(), systems: Vec::new() }
    }

    /// Registers a system at the end of the run order.
    pub fn push_system(&mut self, system: S)
        requires
            old(self).wf(),
        ensures
            final(self).wf(),
            final(self).spec_world() == old(self).spec_world(),
            final(self).spec_systems() == old(self).spec_systems().push(system),
    {
        self.systems.push(system);
    }

    /// Runs every registered system once, in registration order.
    pub fn run(&mut self)
        requires
            old(self).wf(),
        ensures
            final(self).wf(),
            final(self).spec_systems().len() == old(self).spec_systems().len(),
    {
        let n = self.systems.len();
        let mut i: usize = 0;
        while i < n
            invariant
                self.world.wf(),
                self.systems@.len() == n,
                i <= n,
            decreases n - i,
        {
            let mut system = self.systems.remove(0);
            system.run(&mut self.world);
            self.systems.push(system);
            i = i + 1;
        }
    }

    /// Runs a single system once, without registering it: initialization.
    pub fn run_once(&mut self, system: S)
        requires
            old(self).wf(),
        ensures
            final(self).wf(),
    {
        let mut system = system;
        system.run(&mut self.world);
    }

    /// Creates an entity in the engine's world.
    pub fn spawn(&mut self, bundle: ComponentBundle<C>) -> (r: EntityId)
        requires
            old(self).wf(),
            bundle.wf(),
            forall|i: int| 0 <= i < bundle@.len() ==> (#[trigger] bundle@[i]).0 < usize::MAX,
            old(self).spec_world().can_spawn(),
        ensures
            final(self).wf(),
            final(self).spec_world().live(r@),
            forall|k: usize| #[trigger]
                final(self).spec_world().has(r@, k) <==> bundle.has_key(k),
            forall|k: usize| #[trigger]
                bundle.has_key(k) ==> final(self).spec_world().comp(r@, k) == bundle.spec_get(k),
    {
        self.world.spawn(bundle)
    }

    /// Reads a component from the engine's world.
    pub fn get_component(&self, id: EntityId, key: usize) -> (r: Option<&C>)
        requires
            self.wf(),
        ensures
            match r {
                Some(c) => self.spec_world().has(id@, key) && *c == self.spec_world().comp(
                    id@,
                    key,
                ),
                None => !self.spec_world().has(id@, key),
            },
    {
        self.world.get_component(id, key)
    }

    /// Runs a query against the engine's world.
    pub fn query(&mut self, required: Vec<usize>, excluded: Vec<usize>) -> (r: Vec<EntityId>)
        requires
            old(self).wf(),
        ensures
            final(self).wf(),
            r@.len() == old(self).spec_world().query_view(required@, excluded@).len(),
            forall|i: int|
                0 <= i < r@.len() ==> (#[trigger] r@[i])@ == old(self).spec_world().query_view(
                    required@,
                    excluded@,
                )[i],
    {
        self.world.query(required, excluded)
    }

    /// Stores a resource in the engine's world.
    pub fn insert_resource(&mut self, key: usize, value: C)
        requires
            old(self).wf(),
            key < usize::MAX,
        ensures
            final(self).wf(),
            final(self).spec_world().res_has(key),
            final(self).spec_world().res(key) == value,
    {
        self.world.insert_resource(key, value);
    }

    /// Reads a resource from the engine's world.
    pub fn get_resource(&self, key: usize) -> (r: Option<&C>)
        requires
            self.wf(),
        ensures
            match r {
                Some(c) => self.spec_world().res_has(key) && *c == self.spec_world().res(key),
                None => !self.spec_world().res_has(key),
            },
    {
        self.world.get_resource(key)
    }
}

} // verus!
