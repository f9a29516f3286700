//! What a registered kind of per-entity item can do to a world.

use vstd::prelude::*;
use crate::table::{has_key, lookup};
use crate::world::{Entity, World};

verus! {

/// The operations of one kind of per-entity item.
#[derive(Clone, Debug)]
pub struct ReflectComponent {
    name: String,
}

impl View for ReflectComponent {
    type V = Seq<char>;

    closed spec fn view(&self) -> Seq<char> {
        self.name@
    }
}

impl ReflectComponent {
    /// The operations of the kind called `kind`.
    pub fn from_type(kind: String) -> (r: Self)
        ensures
            r@ == kind@,
    {
        ReflectComponent { name: kind }
    }

    /// The name of the kind.
    pub fn name(&self) -> (n: &String)
        ensures
            n@ == self@,
    {
        &self.name
    }

    /// Attaches `component` to `entity` as a new item of this kind.
    pub fn add_component(&self, world: &mut World, entity: Entity, component: &[u8])
        requires
            old(world).wf(),
            entity.0 < old(world)@.entities.len(),
        ensures
            final(world).wf(),
            final(world)@.globals == old(world)@.globals,
            final(world)@.tick == old(world)@.tick,
            final(world)@.entities.len() == old(world)@.entities.len(),
            forall|e: int|
                0 <= e < old(world)@.entities.len() && e != entity.0 ==> (
                #[trigger] final(world)@.entities[e]) == old(world)@.entities[e],
            final(world)@.entities[entity.0 as int].id == old(world)@.entities[entity.0 as int].id,
            forall|k: Seq<char>|
                #[trigger] lookup(final(world)@.entities[entity.0 as int].items, k) == if k
                    == self@ {
                    Some(component@)
                } else {
                    lookup(old(world)@.entities[entity.0 as int].items, k)
                },
    {
        world.insert(entity, self.name.clone(), copy_bytes(component));
    }

    /// Overwrites the item of this kind that `entity` has with `component`.
    pub fn apply_component(&self, world: &mut World, entity: Entity, component: &[u8])
        requires
            old(world).wf(),
            entity.0 < old(world)@.entities.len(),
            has_key(old(world)@.entities[entity.0 as int].items, self@),
        ensures
            final(world).wf(),
            final(world)@.globals == old(world)@.globals,
            final(world)@.tick == old(world)@.tick,
            final(world)@.entities.len() == old(world)@.entities.len(),
            forall|e: int|
                0 <= e < old(world)@.entities.len() && e != entity.0 ==> (
                #[trigger] final(world)@.entities[e]) == old(world)@.entities[e],
            final(world)@.entities[entity.0 as int].id == old(world)@.entities[entity.0 as int].id,
            forall|k: Seq<char>|
                #[trigger] lookup(final(world)@.entities[entity.0 as int].items, k) == if k
                    == self@ {
                    Some(component@)
                } else {
                    lookup(old(world)@.entities[entity.0 as int].items, k)
                },
    {
        world.insert(entity, self.name.clone(), copy_bytes(component));
    }

    /// Takes the item of this kind off `entity`, if it has one.
    pub fn remove_component(&self, world: &mut World, entity: Entity)
        requires
            old(world).wf(),
            entity.0 < old(world)@.entities.len(),
        ensures
            final(world).wf(),
            final(world)@.globals == old(world)@.globals,
            final(world)@.tick == old(world)@.tick,
            final(world)@.entities.len() == old(world)@.entities.len(),
            forall|e: int|
                0 <= e < old(world)@.entities.len() && e != entity.0 ==> (
                #[trigger] final(world)@.entities[e]) == old(world)@.entities[e],
            final(world)@.entities[entity.0 as int].id == old(world)@.entities[entity.0 as int].id,
            forall|k: Seq<char>|
                #[trigger] lookup(final(world)@.entities[entity.0 as int].items, k) == if k
                    == self@ {
                    None
                } else {
                    lookup(old(world)@.entities[entity.0 as int].items, k)
                },
    {
        world.remove(entity, self.name.as_str());
    }

    /// The item of this kind on `entity`: none where the world has no such
    /// entity, or the entity no such item.
    pub fn reflect_component<'a>(&self, world: &'a World, entity: Entity) -> (r: Option<
        &'a Vec<u8>,
    >)
        requires
            world.wf(),
        ensures
            match r {
                Some(v) => entity.0 < world@.entities.len() && lookup(
                    world@.entities[entity.0 as int].items,
                    self@,
                ) == Some(v@),
                None => entity.0 >= world@.entities.len() || lookup(
                    world@.entities[entity.0 as int].items,
                    self@,
                ) is None,
            },
    {
        if world.contains(entity) {
            world.get(entity, self.name.as_str())
        } else {
            None
        }
    }
}

/// A copy of `bytes`.
pub fn copy_bytes(bytes: &[u8]) -> (r: Vec<u8>)
    ensures
        r@ == bytes@,
{
    let mut r: Vec<u8> = Vec::new();
    let mut i: usize = 0;
    while i < bytes.len()
        invariant
            i <= bytes@.len(),
            r@ == bytes@.take(i as int),
        decreases bytes@.len() - i,
    {
        r.push(bytes[i]);
        proof {
            assert(bytes@.take(i as int + 1) =~= bytes@.take(i as int).push(bytes@[i as int]));
        }
        i = i + 1;
    }
    proof {
        assert(bytes@.take(bytes@.len() as int) =~= bytes@);
    }
    r
}

} // verus!
