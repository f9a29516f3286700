//! The store that snapshots are taken of and loaded into: entities with the
//! items attached to them, and global items. An item is held by the name of
//! its kind, as the bytes that its kind writes it out to.

use vstd::prelude::*;
use crate::input::{Confirmation, PlayerId, PlayerInputs};
use crate::order::str_equal;
use crate::table::{has_key, keys_ascend, lookup, Table};
use crate::RbrbTime;
use std::time::Duration;

verus! {

/// A handle to an entity of a [`World`]: its position in the order of
/// spawning.
#[derive(Clone, Copy, Debug, PartialEq, Eq, Hash, Structural)]
pub struct Entity(pub usize);

/// An identifier that an entity keeps over saving and loading.
#[derive(Default, PartialEq, Eq, PartialOrd, Ord, Hash, Clone, Debug)]
pub struct RollbackId(pub String);

impl View for RollbackId {
    type V = Seq<char>;

    open spec fn view(&self) -> Seq<char> {
        self.0@
    }
}

/// What an entity is, to a contract.
pub struct EntityView {
    /// Its identifier, if it has one.
    pub id: Option<Seq<char>>,
    /// Its items by the name of their kind, in ascending order.
    pub items: Seq<(Seq<char>, Seq<u8>)>,
}

/// What a world is, to a contract.
pub struct WorldView {
    /// The entities in the order of spawning.
    pub entities: Seq<EntityView>,
    /// The global items by the name of their kind, in ascending order.
    pub globals: Seq<(Seq<char>, Seq<u8>)>,
    /// What is there for the tick that runs, and for no longer.
    pub tick: Option<TickView>,
}

/// What a [`Tick`] is, to a contract.
pub struct TickView {
    /// The bytes of each player's input.
    pub inputs: Seq<(PlayerId, Seq<u8>)>,
    /// The time that the tick covers.
    pub delta: Duration,
    /// How far the inputs are settled.
    pub confirmed: Confirmation,
}

/// What a world holds while a tick runs, and only then.
pub struct Tick {
    /// The bytes of each player's input.
    pub inputs: PlayerInputs<Vec<u8>>,
    /// The time that the tick covers.
    pub time: RbrbTime,
    /// How far the inputs are settled.
    pub confirmed: Confirmation,
}

/// The bytes of each player's input.
pub open spec fn raw_inputs(entries: Seq<(PlayerId, Vec<u8>)>) -> Seq<(PlayerId, Seq<u8>)> {
    entries.map_values(|e: (PlayerId, Vec<u8>)| (e.0, e.1@))
}

impl View for Tick {
    type V = TickView;

    open spec fn view(&self) -> TickView {
        TickView {
            inputs: raw_inputs(self.inputs.entries()),
            delta: self.time.delta,
            confirmed: self.confirmed,
        }
    }
}

/// The tables of `w` are in order, and no identifier is held by two entities.
pub open spec fn world_wf(w: WorldView) -> bool {
    &&& keys_ascend(w.globals)
    &&& forall|e: int| 0 <= e < w.entities.len() ==> keys_ascend((#[trigger] w.entities[e]).items)
    &&& forall|a: int, b: int|
        0 <= a < w.entities.len() && 0 <= b < w.entities.len() && a != b && (
        #[trigger] w.entities[a]).id is Some ==> w.entities[a].id != (#[trigger] w.entities[b]).id
}

/// Some entity of `w` has the identifier `id`.
pub open spec fn has_id(w: WorldView, id: Seq<char>) -> bool {
    exists|e: int| 0 <= e < w.entities.len() && (#[trigger] w.entities[e]).id == Some(id)
}

/// The entity of `w` that has the identifier `id`.
pub open spec fn entity_of(w: WorldView, id: Seq<char>) -> int {
    choose|e: int| 0 <= e < w.entities.len() && (#[trigger] w.entities[e]).id == Some(id)
}

/// In a well-formed world the entity at `e` is the one found under its
/// identifier.
pub proof fn lemma_entity_of(w: WorldView, e: int)
    requires
        world_wf(w),
        0 <= e < w.entities.len(),
        w.entities[e].id is Some,
    ensures
        has_id(w, w.entities[e].id->0),
        entity_of(w, w.entities[e].id->0) == e,
{
    let id = w.entities[e].id->0;
    assert(w.entities[e].id == Some(id));
    assert forall|x: int| 0 <= x < w.entities.len() && (#[trigger] w.entities[x]).id == Some(
        id,
    ) implies x == e by {}
}

struct EntityData {
    id: Option<String>,
    items: Table<Vec<u8>>,
}

/// Entities with their items, and global items.
pub struct World {
    entities: Vec<EntityData>,
    resources: Table<Vec<u8>>,
    tick: Option<Tick>,
}

impl View for World {
    type V = WorldView;

    closed spec fn view(&self) -> WorldView {
        WorldView {
            entities: Seq::new(
                self.entities@.len(),
                |e: int|
                    EntityView {
                        id: match self.entities@[e].id {
                            Some(s) => Some(s@),
                            None => None,
                        },
                        items: self.entities@[e].items@,
                    },
            ),
            globals: self.resources@,
            tick: match self.tick {
                Some(t) => Some(t@),
                None => None,
            },
        }
    }
}

impl World {
    /// The tables are in order, and no identifier is held by two entities.
    pub open spec fn wf(&self) -> bool {
        world_wf(self@)
    }

    /// A world without entities or global items.
    pub fn new() -> (w: Self)
        ensures
            w.wf(),
            w@.entities.len() == 0,
            w@.globals.len() == 0,
            w@.tick is None,
    {
        World { entities: Vec::new(), resources: Table::new(), tick: None }
    }

    /// The number of entities.
    pub fn entity_count(&self) -> (n: usize)
        ensures
            n == self@.entities.len(),
    {
        self.entities.len()
    }

    /// Whether `entity` is an entity of this world.
    pub fn contains(&self, entity: Entity) -> (r: bool)
        ensures
            r == (entity.0 < self@.entities.len()),
    {
        entity.0 < self.entities.len()
    }

    /// Adds an entity without identifier or items, and returns its handle.
    pub fn spawn(&mut self) -> (entity: Entity)
        requires
            old(self).wf(),
        ensures
            final(self).wf(),
            entity.0 == old(self)@.entities.len(),
            final(self)@.entities == old(self)@.entities.push(
                EntityView { id: None, items: Seq::empty() },
            ),
            final(self)@.globals == old(self)@.globals,
            final(self)@.tick == old(self)@.tick,
    {
        let n = self.entities.len();
        self.entities.push(EntityData { id: None, items: Table::new() });
        proof {
            assert(self@.entities =~= old(self)@.entities.push(
                EntityView { id: None, items: Seq::empty() },
            ));
        }
        Entity(n)
    }

    /// The identifier of `entity`, if it has one.
    pub fn id(&self, entity: Entity) -> (r: Option<&String>)
        requires
            entity.0 < self@.entities.len(),
        ensures
            match r {
                Some(s) => self@.entities[entity.0 as int].id == Some(s@),
                None => self@.entities[entity.0 as int].id is None,
            },
    {
        match &self.entities[entity.0].id {
            Some(s) => Some(s),
            None => None,
        }
    }

    /// The entity that has the identifier `id`, if there is one.
    pub fn find(&self, id: &str) -> (r: Option<Entity>)
        requires
            self.wf(),
        ensures
            match r {
                Some(e) => has_id(self@, id@) && e.0 == entity_of(self@, id@),
                None => !has_id(self@, id@),
            },
    {
        let mut e: usize = 0;
        while e < self.entities.len()
            invariant
                e <= self@.entities.len(),
                self@.entities.len() == self.entities@.len(),
                self.wf(),
                forall|x: int| 0 <= x < e ==> (#[trigger] self@.entities[x]).id != Some(id@),
            decreases self@.entities.len() - e,
        {
            let found = match &self.entities[e].id {
                Some(s) => str_equal(s.as_str(), id),
                None => false,
            };
            if found {
                proof {
                    lemma_entity_of(self@, e as int);
                }
                return Some(Entity(e));
            }
            e = e + 1;
        }
        None
    }

    /// Gives `entity` the identifier `id`, unless another entity has it.
    /// Returns whether the entity now has it.
    pub fn set_id(&mut self, entity: Entity, id: RollbackId) -> (done: bool)
        requires
            old(self).wf(),
            entity.0 < old(self)@.entities.len(),
        ensures
            final(self).wf(),
            done == (!has_id(old(self)@, id@) || entity_of(old(self)@, id@) == entity.0),
            done ==> final(self)@ == (WorldView {
                entities: old(self)@.entities.update(
                    entity.0 as int,
                    EntityView { id: Some(id@), items: old(self)@.entities[entity.0 as int].items },
                ),
                ..old(self)@
            }),
            !done ==> final(self)@ == old(self)@,
    {
        let holder = self.find(id.0.as_str());
        match holder {
            Some(h) => {
                proof {
                    if h.0 == entity.0 {
                        assert(self@.entities =~= self@.entities.update(
                            entity.0 as int,
                            EntityView {
                                id: Some(id@),
                                items: self@.entities[entity.0 as int].items,
                            },
                        ));
                    }
                }
                h.0 == entity.0
            },
            None => {
                let mut data = self.entities.remove(entity.0);
                data.id = Some(id.0);
                self.entities.insert(entity.0, data);
                proof {
                    let after = self@;
                    let before = old(self)@;
                    assert(after.entities =~= before.entities.update(
                        entity.0 as int,
                        EntityView { id: Some(id@), items: before.entities[entity.0 as int].items },
                    ));
                    assert forall|a: int, b: int|
                        0 <= a < after.entities.len() && 0 <= b < after.entities.len() && a != b
                            && (#[trigger] after.entities[a]).id is Some implies after.entities[a].id
                        != (#[trigger] after.entities[b]).id by {
                        assert(before.entities[a].id == before.entities[a].id);
                        assert(before.entities[b].id == before.entities[b].id);
                    }
                    assert forall|e: int| 0 <= e < after.entities.len() implies keys_ascend(
                        (#[trigger] after.entities[e]).items,
                    ) by {
                        assert(after.entities[e].items == before.entities[e].items);
                    }
                }
                true
            },
        }
    }

    /// The item of kind `kind` on `entity`, if it has one.
    pub fn get(&self, entity: Entity, kind: &str) -> (r: Option<&Vec<u8>>)
        requires
            self.wf(),
            entity.0 < self@.entities.len(),
        ensures
            match r {
                Some(v) => lookup(self@.entities[entity.0 as int].items, kind@) == Some(v@),
                None => lookup(self@.entities[entity.0 as int].items, kind@) is None,
            },
    {
        assert(keys_ascend(self@.entities[entity.0 as int].items));
        self.entities[entity.0].items.get(kind)
    }

    /// Whether `entity` has an item of kind `kind`.
    pub fn has(&self, entity: Entity, kind: &str) -> (r: bool)
        requires
            self.wf(),
            entity.0 < self@.entities.len(),
        ensures
            r == has_key(self@.entities[entity.0 as int].items, kind@),
    {
        assert(keys_ascend(self@.entities[entity.0 as int].items));
        self.entities[entity.0].items.contains_key(kind)
    }

    /// Puts `value` on `entity` as its item of kind `kind`, in place of the
    /// one that it had.
    pub fn insert(&mut self, entity: Entity, kind: String, value: Vec<u8>)
        requires
            old(self).wf(),
            entity.0 < old(self)@.entities.len(),
        ensures
            final(self).wf(),
            final(self)@.globals == old(self)@.globals,
            final(self)@.tick == old(self)@.tick,
            final(self)@.entities.len() == old(self)@.entities.len(),
            forall|e: int|
                0 <= e < old(self)@.entities.len() && e != entity.0 ==> (
                #[trigger] final(self)@.entities[e]) == old(self)@.entities[e],
            final(self)@.entities[entity.0 as int].id == old(self)@.entities[entity.0 as int].id,
            forall|k: Seq<char>|
                #[trigger] lookup(final(self)@.entities[entity.0 as int].items, k) == if k
                    == kind@ {
                    Some(value@)
                } else {
                    lookup(old(self)@.entities[entity.0 as int].items, k)
                },
    {
        assert(keys_ascend(self@.entities[entity.0 as int].items));
        let mut data = self.entities.remove(entity.0);
        data.items.insert(kind, value);
        self.entities.insert(entity.0, data);
        proof {
            self.lemma_one_entity_changed(*old(self), entity.0 as int);
        }
    }

    /// Takes the item of kind `kind` off `entity`. Returns whether it had
    /// one.
    pub fn remove(&mut self, entity: Entity, kind: &str) -> (had: bool)
        requires
            old(self).wf(),
            entity.0 < old(self)@.entities.len(),
        ensures
            final(self).wf(),
            had == has_key(old(self)@.entities[entity.0 as int].items, kind@),
            final(self)@.globals == old(self)@.globals,
            final(self)@.tick == old(self)@.tick,
            final(self)@.entities.len() == old(self)@.entities.len(),
            forall|e: int|
                0 <= e < old(self)@.entities.len() && e != entity.0 ==> (
                #[trigger] final(self)@.entities[e]) == old(self)@.entities[e],
            final(self)@.entities[entity.0 as int].id == old(self)@.entities[entity.0 as int].id,
            forall|k: Seq<char>|
                #[trigger] lookup(final(self)@.entities[entity.0 as int].items, k) == if k
                    == kind@ {
                    None
                } else {
                    lookup(old(self)@.entities[entity.0 as int].items, k)
                },
    {
        assert(keys_ascend(self@.entities[entity.0 as int].items));
        let mut data = self.entities.remove(entity.0);
        let taken = data.items.remove(kind);
        self.entities.insert(entity.0, data);
        proof {
            self.lemma_one_entity_changed(*old(self), entity.0 as int);
        }
        taken.is_some()
    }

    /// A world that differs from `before` in the items of one entity, which
    /// are in order, is well-formed as `before` is.
    proof fn lemma_one_entity_changed(&self, before: World, x: int)
        requires
            before.wf(),
            0 <= x < before.entities@.len(),
            self.resources == before.resources,
            self.tick == before.tick,
            self.entities@.len() == before.entities@.len(),
            forall|e: int|
                0 <= e < before.entities@.len() && e != x ==> self.entities@[e]
                    == before.entities@[e],
            self.entities@[x].id == before.entities@[x].id,
            keys_ascend(self.entities@[x].items@),
        ensures
            self.wf(),
            self@.globals == before@.globals,
            self@.tick == before@.tick,
            self@.entities.len() == before@.entities.len(),
            forall|e: int|
                0 <= e < before@.entities.len() && e != x ==> (#[trigger] self@.entities[e])
                    == before@.entities[e],
            self@.entities[x].id == before@.entities[x].id,
            self@.entities[x].items == self.entities@[x].items@,
    {
        let after = self@;
        let prior = before@;
        assert forall|e: int| 0 <= e < after.entities.len() implies keys_ascend(
            (#[trigger] after.entities[e]).items,
        ) by {
            if e != x {
                assert(after.entities[e] == prior.entities[e]);
            }
        }
        assert forall|a: int, b: int|
            0 <= a < after.entities.len() && 0 <= b < after.entities.len() && a != b && (
            #[trigger] after.entities[a]).id is Some implies after.entities[a].id != (
        #[trigger] after.entities[b]).id by {
            assert(after.entities[a].id == prior.entities[a].id);
            assert(after.entities[b].id == prior.entities[b].id);
        }
    }

    /// Puts in what the tick that is about to run is to find, in place of
    /// what an earlier tick may have left.
    pub fn insert_tick(&mut self, tick: Tick)
        ensures
            final(self)@ == (WorldView { tick: Some(tick@), ..old(self)@ }),
    {
        self.tick = Some(tick);
        proof {
            assert(self@.entities =~= old(self)@.entities);
        }
    }

    /// Takes out what was put in for the tick, and returns it.
    pub fn remove_tick(&mut self) -> (r: Option<Tick>)
        ensures
            final(self)@ == (WorldView { tick: None, ..old(self)@ }),
            match r {
                Some(t) => old(self)@.tick == Some(t@),
                None => old(self)@.tick is None,
            },
    {
        let r = self.tick.take();
        proof {
            assert(self@.entities =~= old(self)@.entities);
        }
        r
    }

    /// What is there for the tick that runs, if one runs.
    pub fn tick(&self) -> (r: Option<&Tick>)
        ensures
            match r {
                Some(t) => self@.tick == Some(t@),
                None => self@.tick is None,
            },
    {
        self.tick.as_ref()
    }

    /// The global item of kind `kind`, if there is one.
    pub fn get_resource(&self, kind: &str) -> (r: Option<&Vec<u8>>)
        requires
            self.wf(),
        ensures
            match r {
                Some(v) => lookup(self@.globals, kind@) == Some(v@),
                None => lookup(self@.globals, kind@) is None,
            },
    {
        self.resources.get(kind)
    }

    /// Whether there is a global item of kind `kind`.
    pub fn has_resource(&self, kind: &str) -> (r: bool)
        requires
            self.wf(),
        ensures
            r == has_key(self@.globals, kind@),
    {
        self.resources.contains_key(kind)
    }

    /// Makes `value` the global item of kind `kind`, in place of the one
    /// that there was.
    pub fn insert_resource(&mut self, kind: String, value: Vec<u8>)
        requires
            old(self).wf(),
        ensures
            final(self).wf(),
            final(self)@.entities == old(self)@.entities,
            final(self)@.tick == old(self)@.tick,
            forall|k: Seq<char>|
                #[trigger] lookup(final(self)@.globals, k) == if k == kind@ {
                    Some(value@)
                } else {
                    lookup(old(self)@.globals, k)
                },
    {
        self.resources.insert(kind, value);
        proof {
            assert(self@.entities =~= old(self)@.entities);
        }
    }

    /// Takes away the global item of kind `kind`. Returns whether there was
    /// one.
    pub fn remove_resource(&mut self, kind: &str) -> (had: bool)
        requires
            old(self).wf(),
        ensures
            final(self).wf(),
            had == has_key(old(self)@.globals, kind@),
            final(self)@.entities == old(self)@.entities,
            final(self)@.tick == old(self)@.tick,
            forall|k: Seq<char>|
                #[trigger] lookup(final(self)@.globals, k) == if k == kind@ {
                    None
                } else {
                    lookup(old(self)@.globals, k)
                },
    {
        let taken = self.resources.remove(kind);
        proof {
            assert(self@.entities =~= old(self)@.entities);
        }
        taken.is_some()
    }
}

} // verus!
