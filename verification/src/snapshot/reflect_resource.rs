//! What a registered kind of global item can do to a world.

use vstd::prelude::*;
use crate::snapshot::reflect_component::copy_bytes;
use crate::table::{has_key, lookup};
use crate::world::World;

verus! {

/// The operations of one kind of global item.
#[derive(Clone, Debug)]
pub struct ReflectResource {
    name: String,
}

impl View for ReflectResource {
    type V = Seq<char>;

    closed spec fn view(&self) -> Seq<char> {
        self.name@
    }
}

impl ReflectResource {
    /// The operations of the kind called `kind`.
    pub fn from_type(kind: String) -> (r: Self)
        ensures
            r@ == kind@,
    {
        ReflectResource { name: kind }
    }

    /// The name of the kind.
    pub fn name(&self) -> (n: &String)
        ensures
            n@ == self@,
    {
        &self.name
    }

    /// Makes `resource` the world's new global item of this kind.
    pub fn add_resource(&self, world: &mut World, resource: &[u8])
        requires
            old(world).wf(),
        ensures
            final(world).wf(),
            final(world)@.entities == old(world)@.entities,
            final(world)@.tick == old(world)@.tick,
            forall|k: Seq<char>|
                #[trigger] lookup(final(world)@.globals, k) == if k == self@ {
                    Some(resource@)
                } else {
                    lookup(old(world)@.globals, k)
                },
    {
        world.insert_resource(self.name.clone(), copy_bytes(resource));
    }

    /// Overwrites the world's global item of this kind with `resource`.
    pub fn apply_resource(&self, world: &mut World, resource: &[u8])
        requires
            old(world).wf(),
            has_key(old(world)@.globals, self@),
        ensures
            final(world).wf(),
            final(world)@.entities == old(world)@.entities,
            final(world)@.tick == old(world)@.tick,
            forall|k: Seq<char>|
                #[trigger] lookup(final(world)@.globals, k) == if k == self@ {
                    Some(resource@)
                } else {
                    lookup(old(world)@.globals, k)
                },
    {
        world.insert_resource(self.name.clone(), copy_bytes(resource));
    }

    /// Takes away the world's global item of this kind, if there is one.
    pub fn remove_resource(&self, world: &mut World)
        requires
            old(world).wf(),
        ensures
            final(world).wf(),
            final(world)@.entities == old(world)@.entities,
            final(world)@.tick == old(world)@.tick,
            forall|k: Seq<char>|
                #[trigger] lookup(final(world)@.globals, k) == if k == self@ {
                    None
                } else {
                    lookup(old(world)@.globals, k)
                },
    {
        world.remove_resource(self.name.as_str());
    }

    /// The world's global item of this kind, if there is one.
    pub fn reflect_resource<'a>(&self, world: &'a World) -> (r: Option<&'a Vec<u8>>)
        requires
            world.wf(),
        ensures
            match r {
                Some(v) => lookup(world@.globals, self@) == Some(v@),
                None => lookup(world@.globals, self@) is None,
            },
    {
        world.get_resource(self.name.as_str())
    }
}

} // verus!
