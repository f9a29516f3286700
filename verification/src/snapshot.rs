//! Snapshots of a world: taking one, and loading one back.

pub mod reflect_component;
pub mod reflect_resource;

use vstd::prelude::*;
use crate::snapshot::reflect_component::{copy_bytes, ReflectComponent};
use crate::snapshot::reflect_resource::ReflectResource;
use crate::table::{
    has_key, keys_ascend, lemma_ascending_lists_equal, lemma_lookup_at, lookup, Table,
};
use crate::wire::{
    buckets_fit, dec_nested, dec_table, enc_nested, enc_table, items_fit, lemma_dec_nested,
    lemma_dec_table, put_nested, put_table, take_nested, take_table,
};
use crate::world::{
    entity_of, has_id, lemma_entity_of, world_wf, Entity, RollbackId, World, WorldView,
};

verus! {

/// What a snapshot is, to a contract.
pub struct SnapshotView {
    /// For each identifier the saved items of its entity, by the name of
    /// their kind; identifiers and names ascend.
    pub entities: Seq<(Seq<char>, Seq<(Seq<char>, Seq<u8>)>)>,
    /// The saved global items by the name of their kind, in ascending order.
    pub globals: Seq<(Seq<char>, Seq<u8>)>,
}

/// Every table of `s` is in order.
pub open spec fn snapshot_wf(s: SnapshotView) -> bool {
    &&& keys_ascend(s.entities)
    &&& keys_ascend(s.globals)
    &&& forall|i: int| 0 <= i < s.entities.len() ==> keys_ascend((#[trigger] s.entities[i]).1)
}

/// Each kind of `reg` is registered under its own name.
pub open spec fn registry_wf(reg: Seq<(Seq<char>, Seq<char>)>) -> bool {
    &&& keys_ascend(reg)
    &&& forall|i: int| 0 <= i < reg.len() ==> (#[trigger] reg[i]).1 == reg[i].0
}

/// The item of kind `k` in `items`, if `reg` holds that kind.
pub open spec fn kept<X, Y>(
    items: Seq<(Seq<char>, X)>,
    reg: Seq<(Seq<char>, Y)>,
    k: Seq<char>,
) -> Option<X> {
    if has_key(reg, k) {
        lookup(items, k)
    } else {
        None
    }
}

/// `b` holds the items of `items` whose kind `reg` holds, and no others.
pub open spec fn is_restriction<X, Y>(
    b: Seq<(Seq<char>, X)>,
    items: Seq<(Seq<char>, X)>,
    reg: Seq<(Seq<char>, Y)>,
) -> bool {
    &&& keys_ascend(b)
    &&& forall|k: Seq<char>| #[trigger] lookup(b, k) == kept(items, reg, k)
}

/// Some item of `items` is of a kind that `reg` holds.
pub open spec fn saves_any<X, Y>(items: Seq<(Seq<char>, X)>, reg: Seq<(Seq<char>, Y)>) -> bool {
    exists|j: int| 0 <= j < items.len() && has_key(reg, (#[trigger] items[j]).0)
}

/// `s` is what saving takes of the first `n` entities of `w`: one bucket for
/// each of them that has an identifier and an item of a registered kind,
/// holding its items of registered kinds.
pub open spec fn captures_upto(
    s: Seq<(Seq<char>, Seq<(Seq<char>, Seq<u8>)>)>,
    w: WorldView,
    reg: Seq<(Seq<char>, Seq<char>)>,
    n: int,
) -> bool {
    &&& keys_ascend(s)
    &&& forall|i: int|
        0 <= i < s.len() ==> {
            &&& has_id(w, (#[trigger] s[i]).0)
            &&& entity_of(w, s[i].0) < n
            &&& s[i].1.len() > 0
            &&& is_restriction(s[i].1, w.entities[entity_of(w, s[i].0)].items, reg)
        }
    &&& forall|e: int|
        0 <= e < n && e < w.entities.len() && (#[trigger] w.entities[e]).id is Some && saves_any(
            w.entities[e].items,
            reg,
        ) ==> has_key(s, w.entities[e].id->0)
}

/// `s` is what saving takes of the entities of `w`.
pub open spec fn captures_entities(
    s: Seq<(Seq<char>, Seq<(Seq<char>, Seq<u8>)>)>,
    w: WorldView,
    reg: Seq<(Seq<char>, Seq<char>)>,
) -> bool {
    captures_upto(s, w, reg, w.entities.len() as int)
}

/// A restriction is empty exactly where nothing is of a registered kind.
pub proof fn lemma_restriction_empty<X, Y>(
    b: Seq<(Seq<char>, X)>,
    items: Seq<(Seq<char>, X)>,
    reg: Seq<(Seq<char>, Y)>,
)
    requires
        keys_ascend(items),
        is_restriction(b, items, reg),
    ensures
        b.len() > 0 <==> saves_any(items, reg),
{
    if b.len() > 0 {
        lemma_lookup_at(b, 0);
        let k = b[0].0;
        assert(lookup(b, k) == kept(items, reg, k));
        assert(has_key(items, k));
        let j = choose|j: int| 0 <= j < items.len() && (#[trigger] items[j]).0 == k;
        assert(has_key(reg, items[j].0));
    }
    if saves_any(items, reg) {
        let j = choose|j: int| 0 <= j < items.len() && has_key(reg, (#[trigger] items[j]).0);
        lemma_lookup_at(items, j);
        assert(lookup(b, items[j].0) == kept(items, reg, items[j].0));
        assert(has_key(b, items[j].0));
    }
}

/// The saved state of a world: per-entity items by identifier and kind, and
/// global items by kind.
pub struct Snapshot {
    entities: Table<Table<Vec<u8>>>,
    resources: Table<Vec<u8>>,
}

impl View for Snapshot {
    type V = SnapshotView;

    closed spec fn view(&self) -> SnapshotView {
        SnapshotView { entities: self.entities@, globals: self.resources@ }
    }
}

/// The items of `entity` whose kind `registry` holds.
fn fill_bucket(world: &World, entity: Entity, registry: &Table<ReflectComponent>) -> (bucket: Table<
    Vec<u8>,
>)
    requires
        world.wf(),
        entity.0 < world@.entities.len(),
        registry_wf(registry@),
    ensures
        is_restriction(bucket@, world@.entities[entity.0 as int].items, registry@),
{
    let mut bucket: Table<Vec<u8>> = Table::new();
    let ghost items = world@.entities[entity.0 as int].items;
    let mut r: usize = 0;
    while r < registry.len()
        invariant
            r <= registry@.len(),
            world.wf(),
            entity.0 < world@.entities.len(),
            items == world@.entities[entity.0 as int].items,
            registry_wf(registry@),
            bucket.wf(),
            forall|k: Seq<char>|
                #[trigger] lookup(bucket@, k) == kept(items, registry@.take(r as int), k),
        decreases registry@.len() - r,
    {
        let reflect = registry.value_at(r);
        let ghost before = bucket@;
        let ghost name = registry@[r as int].0;
        assert(reflect@ == name);
        match reflect.reflect_component(world, entity) {
            Some(component) => {
                bucket.insert(reflect.name().clone(), copy_bytes(component.as_slice()));
            },
            None => {},
        }
        proof {
            let now = registry@.take(r as int + 1);
            let was = registry@.take(r as int);
            assert forall|k: Seq<char>| #[trigger] lookup(bucket@, k) == kept(items, now, k) by {
                assert(lookup(before, k) == kept(items, was, k));
                if has_key(was, k) {
                    let i = choose|i: int| 0 <= i < was.len() && (#[trigger] was[i]).0 == k;
                    assert(now[i] == was[i]);
                }
                if has_key(now, k) && k != name {
                    let i = choose|i: int| 0 <= i < now.len() && (#[trigger] now[i]).0 == k;
                    assert(was[i] == now[i]);
                }
                assert(now[r as int].0 == name);
            }
        }
        r = r + 1;
    }
    proof {
        assert(registry@.take(registry@.len() as int) =~= registry@);
    }
    bucket
}

impl Snapshot {
    /// Every table is in order.
    pub open spec fn wf(&self) -> bool {
        snapshot_wf(self@)
    }

    /// A snapshot that holds nothing.
    pub fn new() -> (s: Self)
        ensures
            s.wf(),
            s@.entities.len() == 0,
            s@.globals.len() == 0,
    {
        Snapshot { entities: Table::new(), resources: Table::new() }
    }

    /// Replaces the saved entities by those of `world`: for each entity that
    /// has an identifier, its items of the kinds that `registry` holds, if it
    /// has any.
    pub fn fill_entities(&mut self, world: &World, registry: &Table<ReflectComponent>)
        requires
            old(self).wf(),
            world.wf(),
            registry_wf(registry@),
        ensures
            final(self).wf(),
            final(self)@.globals == old(self)@.globals,
            captures_entities(final(self)@.entities, world@, registry@),
    {
        self.entities = Table::new();
        let mut e: usize = 0;
        while e < world.entity_count()
            invariant
                e <= world@.entities.len(),
                world.wf(),
                registry_wf(registry@),
                self.resources == old(self).resources,
                captures_upto(self.entities@, world@, registry@, e as int),
            decreases world@.entities.len() - e,
        {
            let ghost w = world@;
            let ghost reg = registry@;
            match world.id(Entity(e)) {
                Some(id) => {
                    let bucket = fill_bucket(world, Entity(e), registry);
                    proof {
                        lemma_entity_of(w, e as int);
                        lemma_restriction_empty(bucket@, w.entities[e as int].items, reg);
                    }
                    if bucket.len() > 0 {
                        let ghost before = self.entities@;
                        let ghost b = bucket@;
                        self.entities.insert(id.clone(), bucket);
                        proof {
                            let after = self.entities@;
                            assert forall|i: int| 0 <= i < after.len() implies {
                                &&& has_id(w, (#[trigger] after[i]).0)
                                &&& entity_of(w, after[i].0) < e + 1
                                &&& after[i].1.len() > 0
                                &&& is_restriction(
                                    after[i].1,
                                    w.entities[entity_of(w, after[i].0)].items,
                                    reg,
                                )
                            } by {
                                lemma_lookup_at(after, i);
                                if after[i].0 != id@ {
                                    assert(lookup(after, after[i].0) == lookup(
                                        before,
                                        after[i].0,
                                    ));
                                    let j = choose|j: int|
                                        0 <= j < before.len() && (#[trigger] before[j]).0
                                            == after[i].0;
                                    lemma_lookup_at(before, j);
                                }
                            }
                            assert forall|x: int|
                                0 <= x < e + 1 && x < w.entities.len() && (
                                #[trigger] w.entities[x]).id is Some && saves_any(
                                    w.entities[x].items,
                                    reg,
                                ) implies has_key(after, w.entities[x].id->0) by {
                                let k = w.entities[x].id->0;
                                assert(lookup(after, k) is Some);
                            }
                        }
                    }
                },
                None => {},
            }
            e = e + 1;
        }
    }
}

/// One thing that loading did to a world.
#[derive(Clone, Debug, PartialEq, Eq)]
pub enum Change {
    /// A new entity was made and given the identifier.
    Spawn { entity: Entity, id: RollbackId },
    /// The entity had no item of the kind and was given the loaded one.
    Add { entity: Entity, kind: String, value: Vec<u8> },
    /// The entity's item of the kind was overwritten with the loaded one.
    Apply { entity: Entity, kind: String, value: Vec<u8> },
    /// The entity's item of the kind was taken off it.
    Remove { entity: Entity, kind: String },
    /// There was no global item of the kind, and the loaded one was put in.
    AddResource { kind: String, value: Vec<u8> },
    /// The global item of the kind was overwritten with the loaded one.
    ApplyResource { kind: String, value: Vec<u8> },
    /// The global item of the kind was taken away.
    RemoveResource { kind: String },
}

/// What a [`Change`] is, to a contract.
pub enum ChangeView {
    Spawn { entity: int, id: Seq<char> },
    Add { entity: int, kind: Seq<char>, value: Seq<u8> },
    Apply { entity: int, kind: Seq<char>, value: Seq<u8> },
    Remove { entity: int, kind: Seq<char> },
    AddResource { kind: Seq<char>, value: Seq<u8> },
    ApplyResource { kind: Seq<char>, value: Seq<u8> },
    RemoveResource { kind: Seq<char> },
}

impl View for Change {
    type V = ChangeView;

    open spec fn view(&self) -> ChangeView {
        match *self {
            Change::Spawn { entity, id } => ChangeView::Spawn { entity: entity.0 as int, id: id@ },
            Change::Add { entity, kind, value } => ChangeView::Add {
                entity: entity.0 as int,
                kind: kind@,
                value: value@,
            },
            Change::Apply { entity, kind, value } => ChangeView::Apply {
                entity: entity.0 as int,
                kind: kind@,
                value: value@,
            },
            Change::Remove { entity, kind } => ChangeView::Remove {
                entity: entity.0 as int,
                kind: kind@,
            },
            Change::AddResource { kind, value } => ChangeView::AddResource {
                kind: kind@,
                value: value@,
            },
            Change::ApplyResource { kind, value } => ChangeView::ApplyResource {
                kind: kind@,
                value: value@,
            },
            Change::RemoveResource { kind } => ChangeView::RemoveResource { kind: kind@ },
        }
    }
}

/// The views of a list of changes.
pub open spec fn changes_view(changes: Seq<Change>) -> Seq<ChangeView> {
    changes.map_values(|c: Change| c@)
}

/// What loading does about one kind in one place.
#[derive(Clone, Copy, Debug, PartialEq, Eq, Structural)]
pub enum Effect {
    /// Overwrite the live item with the loaded one.
    Apply,
    /// Put the loaded item where there was none.
    Add,
    /// Take the live item away.
    Remove,
    /// Leave the place as it is, without an item of the kind.
    Nothing,
}

/// The effect for a kind of which an item is live or not, and loaded or not.
pub open spec fn effect_of(live: bool, loaded: bool) -> Effect {
    if live && loaded {
        Effect::Apply
    } else if loaded {
        Effect::Add
    } else if live {
        Effect::Remove
    } else {
        Effect::Nothing
    }
}

/// Decides what loading does about a kind of which an item is live or not,
/// and loaded or not.
pub fn decide(live: bool, loaded: bool) -> (effect: Effect)
    ensures
        effect == effect_of(live, loaded),
{
    match (live, loaded) {
        (true, true) => Effect::Apply,
        (false, true) => Effect::Add,
        (true, false) => Effect::Remove,
        (false, false) => Effect::Nothing,
    }
}

/// The item of kind `k` after loading: the loaded one for a kind that `reg`
/// holds, the live one for any other.
pub open spec fn merged<Y>(
    items: Seq<(Seq<char>, Seq<u8>)>,
    bucket: Seq<(Seq<char>, Seq<u8>)>,
    reg: Seq<(Seq<char>, Y)>,
    k: Seq<char>,
) -> Option<Seq<u8>> {
    if has_key(reg, k) {
        lookup(bucket, k)
    } else {
        lookup(items, k)
    }
}

/// `m` is `items` after `bucket` was loaded over it.
pub open spec fn is_merge<Y>(
    m: Seq<(Seq<char>, Seq<u8>)>,
    items: Seq<(Seq<char>, Seq<u8>)>,
    bucket: Seq<(Seq<char>, Seq<u8>)>,
    reg: Seq<(Seq<char>, Y)>,
) -> bool {
    &&& keys_ascend(m)
    &&& forall|k: Seq<char>| #[trigger] lookup(m, k) == merged(items, bucket, reg, k)
}

/// The changes that loading `bucket` makes to an entity with the items
/// `items`: for each kind of `reg` in turn, what [`effect_of`] says.
pub open spec fn entity_changes(
    entity: int,
    items: Seq<(Seq<char>, Seq<u8>)>,
    bucket: Seq<(Seq<char>, Seq<u8>)>,
    reg: Seq<(Seq<char>, Seq<char>)>,
) -> Seq<ChangeView>
    decreases reg.len(),
{
    if reg.len() == 0 {
        Seq::empty()
    } else {
        let rest = entity_changes(entity, items, bucket, reg.drop_last());
        let kind = reg.last().0;
        match effect_of(has_key(items, kind), has_key(bucket, kind)) {
            Effect::Apply => rest.push(
                ChangeView::Apply { entity, kind, value: lookup(bucket, kind)->0 },
            ),
            Effect::Add => rest.push(
                ChangeView::Add { entity, kind, value: lookup(bucket, kind)->0 },
            ),
            Effect::Remove => rest.push(ChangeView::Remove { entity, kind }),
            Effect::Nothing => rest,
        }
    }
}

/// The changes that loading the global items `loaded` makes where the
/// global items are `globals`.
pub open spec fn resource_changes(
    globals: Seq<(Seq<char>, Seq<u8>)>,
    loaded: Seq<(Seq<char>, Seq<u8>)>,
    reg: Seq<(Seq<char>, Seq<char>)>,
) -> Seq<ChangeView>
    decreases reg.len(),
{
    if reg.len() == 0 {
        Seq::empty()
    } else {
        let rest = resource_changes(globals, loaded, reg.drop_last());
        let kind = reg.last().0;
        match effect_of(has_key(globals, kind), has_key(loaded, kind)) {
            Effect::Apply => rest.push(
                ChangeView::ApplyResource { kind, value: lookup(loaded, kind)->0 },
            ),
            Effect::Add => rest.push(
                ChangeView::AddResource { kind, value: lookup(loaded, kind)->0 },
            ),
            Effect::Remove => rest.push(ChangeView::RemoveResource { kind }),
            Effect::Nothing => rest,
        }
    }
}

/// A kind of `reg` is not among the kinds before it.
pub proof fn lemma_kind_is_new<Y>(reg: Seq<(Seq<char>, Y)>, r: int)
    requires
        keys_ascend(reg),
        0 <= r < reg.len(),
    ensures
        !has_key(reg.take(r), reg[r].0),
        forall|k: Seq<char>|
            has_key(reg.take(r + 1), k) <==> (k == reg[r].0 || has_key(reg.take(r), k)),
        reg.take(r + 1).drop_last() == reg.take(r),
        reg.take(r + 1).last() == reg[r],
{
    let was = reg.take(r);
    let now = reg.take(r + 1);
    if has_key(was, reg[r].0) {
        let i = choose|i: int| 0 <= i < was.len() && (#[trigger] was[i]).0 == reg[r].0;
        assert(was[i] == reg[i]);
        crate::order::lemma_lex_asymmetric(
            crate::order::key_bytes(reg[i].0),
            crate::order::key_bytes(reg[r].0),
        );
    }
    assert forall|k: Seq<char>| has_key(now, k) <==> (k == reg[r].0 || has_key(was, k)) by {
        if has_key(was, k) {
            let i = choose|i: int| 0 <= i < was.len() && (#[trigger] was[i]).0 == k;
            assert(now[i] == was[i]);
        }
        if has_key(now, k) && k != reg[r].0 {
            let i = choose|i: int| 0 <= i < now.len() && (#[trigger] now[i]).0 == k;
            assert(was[i] == now[i]);
        }
        assert(now[r].0 == reg[r].0);
    }
    assert(now.drop_last() =~= was);
}

impl Snapshot {
    /// Replaces the saved global items by those of `world` whose kind
    /// `registry` holds.
    pub fn fill_resources(&mut self, world: &World, registry: &Table<ReflectResource>)
        requires
            old(self).wf(),
            world.wf(),
            registry_wf(registry@),
        ensures
            final(self).wf(),
            final(self)@.entities == old(self)@.entities,
            is_restriction(final(self)@.globals, world@.globals, registry@),
    {
        self.resources = Table::new();
        let mut r: usize = 0;
        while r < registry.len()
            invariant
                r <= registry@.len(),
                world.wf(),
                registry_wf(registry@),
                self.entities == old(self).entities,
                self.resources.wf(),
                forall|k: Seq<char>|
                    #[trigger] lookup(self.resources@, k) == kept(
                        world@.globals,
                        registry@.take(r as int),
                        k,
                    ),
            decreases registry@.len() - r,
        {
            let reflect = registry.value_at(r);
            let ghost before = self.resources@;
            assert(reflect@ == registry@[r as int].0);
            match reflect.reflect_resource(world) {
                Some(resource) => {
                    self.resources.insert(reflect.name().clone(), copy_bytes(resource.as_slice()));
                },
                None => {},
            }
            proof {
                lemma_kind_is_new(registry@, r as int);
                assert forall|k: Seq<char>| #[trigger]
                    lookup(self.resources@, k) == kept(
                        world@.globals,
                        registry@.take(r as int + 1),
                        k,
                    ) by {
                    assert(lookup(before, k) == kept(world@.globals, registry@.take(r as int), k));
                }
            }
            r = r + 1;
        }
        proof {
            assert(registry@.take(registry@.len() as int) =~= registry@);
        }
    }

    /// Loads `components` into `entity`: for each kind of `registry` in
    /// turn, the entity's item is overwritten, added, removed or left
    /// absent as [`effect_of`] says, and what was done is appended to
    /// `changes`.
    pub fn apply_components_to(
        components: &Table<Vec<u8>>,
        entity: Entity,
        registry: &Table<ReflectComponent>,
        world: &mut World,
        changes: &mut Vec<Change>,
    )
        requires
            components.wf(),
            registry_wf(registry@),
            old(world).wf(),
            entity.0 < old(world)@.entities.len(),
        ensures
            final(world).wf(),
            final(world)@.globals == old(world)@.globals,
            final(world)@.tick == old(world)@.tick,
            final(world)@.entities.len() == old(world)@.entities.len(),
            forall|e: int|
                0 <= e < old(world)@.entities.len() && e != entity.0 ==> (
                #[trigger] final(world)@.entities[e]) == old(world)@.entities[e],
            final(world)@.entities[entity.0 as int].id == old(world)@.entities[entity.0 as int].id,
            is_merge(
                final(world)@.entities[entity.0 as int].items,
                old(world)@.entities[entity.0 as int].items,
                components@,
                registry@,
            ),
            changes_view(final(changes)@) == changes_view(old(changes)@) + entity_changes(
                entity.0 as int,
                old(world)@.entities[entity.0 as int].items,
                components@,
                registry@,
            ),
    {
        let ghost w0 = world@;
        let ghost items0 = w0.entities[entity.0 as int].items;
        let ghost log0 = changes_view(changes@);
        let mut r: usize = 0;
        proof {
            assert(changes_view(changes@) =~= log0 + entity_changes(
                entity.0 as int,
                items0,
                components@,
                registry@.take(0),
            ));
        }
        while r < registry.len()
            invariant
                r <= registry@.len(),
                components.wf(),
                registry_wf(registry@),
                world.wf(),
                entity.0 < w0.entities.len(),
                items0 == w0.entities[entity.0 as int].items,
                world@.globals == w0.globals,
                world@.tick == w0.tick,
                world@.entities.len() == w0.entities.len(),
                forall|e: int|
                    0 <= e < w0.entities.len() && e != entity.0 ==> (#[trigger] world@.entities[e])
                        == w0.entities[e],
                world@.entities[entity.0 as int].id == w0.entities[entity.0 as int].id,
                forall|k: Seq<char>|
                    #[trigger] lookup(world@.entities[entity.0 as int].items, k) == merged(
                        items0,
                        components@,
                        registry@.take(r as int),
                        k,
                    ),
                changes_view(changes@) == log0 + entity_changes(
                    entity.0 as int,
                    items0,
                    components@,
                    registry@.take(r as int),
                ),
            decreases registry@.len() - r,
        {
            let reflect = registry.value_at(r);
            let ghost kind = registry@[r as int].0;
            let ghost before = world@.entities[entity.0 as int].items;
            let ghost log = changes@;
            assert(reflect@ == kind);
            proof {
                lemma_kind_is_new(registry@, r as int);
                assert(lookup(before, kind) == merged(
                    items0,
                    components@,
                    registry@.take(r as int),
                    kind,
                ));
            }
            let live = world.has(entity, reflect.name().as_str());
            let loaded = components.get(reflect.name().as_str());
            match loaded {
                Some(c) => {
                    match decide(live, true) {
                        Effect::Apply => {
                            reflect.apply_component(world, entity, c.as_slice());
                            changes.push(
                                Change::Apply {
                                    entity,
                                    kind: reflect.name().clone(),
                                    value: copy_bytes(c.as_slice()),
                                },
                            );
                        },
                        _ => {
                            reflect.add_component(world, entity, c.as_slice());
                            changes.push(
                                Change::Add {
                                    entity,
                                    kind: reflect.name().clone(),
                                    value: copy_bytes(c.as_slice()),
                                },
                            );
                        },
                    }
                },
                None => {
                    match decide(live, false) {
                        Effect::Remove => {
                            reflect.remove_component(world, entity);
                            changes.push(Change::Remove { entity, kind: reflect.name().clone() });
                        },
                        _ => {},
                    }
                },
            }
            proof {
                assert forall|k: Seq<char>| #[trigger]
                    lookup(world@.entities[entity.0 as int].items, k) == merged(
                        items0,
                        components@,
                        registry@.take(r as int + 1),
                        k,
                    ) by {
                    assert(lookup(before, k) == merged(
                        items0,
                        components@,
                        registry@.take(r as int),
                        k,
                    ));
                }
                if changes@.len() > log.len() {
                    assert(changes_view(changes@) =~= changes_view(log).push(changes@.last()@));
                }
                assert(changes_view(changes@) =~= log0 + entity_changes(
                    entity.0 as int,
                    items0,
                    components@,
                    registry@.take(r as int + 1),
                ));
            }
            r = r + 1;
        }
        proof {
            assert(registry@.take(registry@.len() as int) =~= registry@);
        }
    }

    /// Loads the saved global items into `world`: for each kind of
    /// `registry` in turn, the global item is overwritten, added, removed or
    /// left absent as [`effect_of`] says, and what was done is appended to
    /// `changes`.
    pub fn apply_resources(
        &self,
        world: &mut World,
        registry: &Table<ReflectResource>,
        changes: &mut Vec<Change>,
    )
        requires
            self.wf(),
            registry_wf(registry@),
            old(world).wf(),
        ensures
            final(world).wf(),
            final(world)@.entities == old(world)@.entities,
            final(world)@.tick == old(world)@.tick,
            is_merge(final(world)@.globals, old(world)@.globals, self@.globals, registry@),
            changes_view(final(changes)@) == changes_view(old(changes)@) + resource_changes(
                old(world)@.globals,
                self@.globals,
                registry@,
            ),
    {
        let ghost w0 = world@;
        let ghost log0 = changes_view(changes@);
        let mut r: usize = 0;
        proof {
            assert(changes_view(changes@) =~= log0 + resource_changes(
                w0.globals,
                self@.globals,
                registry@.take(0),
            ));
        }
        while r < registry.len()
            invariant
                r <= registry@.len(),
                self.wf(),
                registry_wf(registry@),
                world.wf(),
                world@.entities == w0.entities,
                world@.tick == w0.tick,
                forall|k: Seq<char>|
                    #[trigger] lookup(world@.globals, k) == merged(
                        w0.globals,
                        self@.globals,
                        registry@.take(r as int),
                        k,
                    ),
                changes_view(changes@) == log0 + resource_changes(
                    w0.globals,
                    self@.globals,
                    registry@.take(r as int),
                ),
            decreases registry@.len() - r,
        {
            let reflect = registry.value_at(r);
            let ghost kind = registry@[r as int].0;
            let ghost before = world@.globals;
            let ghost log = changes@;
            assert(reflect@ == kind);
            proof {
                lemma_kind_is_new(registry@, r as int);
                assert(lookup(before, kind) == merged(
                    w0.globals,
                    self@.globals,
                    registry@.take(r as int),
                    kind,
                ));
            }
            let live = reflect.reflect_resource(world).is_some();
            let loaded = self.resources.get(reflect.name().as_str());
            match loaded {
                Some(res) => {
                    match decide(live, true) {
                        Effect::Apply => {
                            reflect.apply_resource(world, res.as_slice());
                            changes.push(
                                Change::ApplyResource {
                                    kind: reflect.name().clone(),
                                    value: copy_bytes(res.as_slice()),
                                },
                            );
                        },
                        _ => {
                            reflect.add_resource(world, res.as_slice());
                            changes.push(
                                Change::AddResource {
                                    kind: reflect.name().clone(),
                                    value: copy_bytes(res.as_slice()),
                                },
                            );
                        },
                    }
                },
                None => {
                    match decide(live, false) {
                        Effect::Remove => {
                            reflect.remove_resource(world);
                            changes.push(Change::RemoveResource { kind: reflect.name().clone() });
                        },
                        _ => {},
                    }
                },
            }
            proof {
                assert forall|k: Seq<char>| #[trigger]
                    lookup(world@.globals, k) == merged(
                        w0.globals,
                        self@.globals,
                        registry@.take(r as int + 1),
                        k,
                    ) by {
                    assert(lookup(before, k) == merged(
                        w0.globals,
                        self@.globals,
                        registry@.take(r as int),
                        k,
                    ));
                }
                if changes@.len() > log.len() {
                    assert(changes_view(changes@) =~= changes_view(log).push(changes@.last()@));
                }
                assert(changes_view(changes@) =~= log0 + resource_changes(
                    w0.globals,
                    self@.globals,
                    registry@.take(r as int + 1),
                ));
            }
            r = r + 1;
        }
        proof {
            assert(registry@.take(registry@.len() as int) =~= registry@);
        }
    }
}

/// Why a snapshot could not be loaded.
#[derive(Clone, Debug, PartialEq, Eq)]
pub enum LoadError {
    /// The bytes are not a snapshot.
    Malformed,
    /// The world has an entity with this identifier, and the snapshot has
    /// no bucket for it.
    MissingRollbackData(RollbackId),
}

/// The buckets of `s` whose identifier no entity of `w` has, in order.
pub open spec fn unclaimed(
    w: WorldView,
    s: Seq<(Seq<char>, Seq<(Seq<char>, Seq<u8>)>)>,
) -> Seq<(Seq<char>, Seq<(Seq<char>, Seq<u8>)>)>
    decreases s.len(),
{
    if s.len() == 0 {
        Seq::empty()
    } else {
        let rest = unclaimed(w, s.drop_last());
        if has_id(w, s.last().0) {
            rest
        } else {
            rest.push(s.last())
        }
    }
}

/// Each unclaimed bucket is a bucket of `s` whose identifier is not live.
pub proof fn lemma_unclaimed_from(
    w: WorldView,
    s: Seq<(Seq<char>, Seq<(Seq<char>, Seq<u8>)>)>,
    t: int,
) -> (i: int)
    requires
        0 <= t < unclaimed(w, s).len(),
    ensures
        0 <= i < s.len(),
        unclaimed(w, s)[t] == s[i],
        !has_id(w, s[i].0),
    decreases s.len(),
{
    let rest = unclaimed(w, s.drop_last());
    if t < rest.len() {
        lemma_unclaimed_from(w, s.drop_last(), t)
    } else {
        s.len() - 1
    }
}

/// Each bucket of `s` whose identifier is not live is an unclaimed bucket.
pub proof fn lemma_unclaimed_has(
    w: WorldView,
    s: Seq<(Seq<char>, Seq<(Seq<char>, Seq<u8>)>)>,
    i: int,
) -> (t: int)
    requires
        0 <= i < s.len(),
        !has_id(w, s[i].0),
    ensures
        0 <= t < unclaimed(w, s).len(),
        unclaimed(w, s)[t] == s[i],
    decreases s.len(),
{
    let rest = unclaimed(w, s.drop_last());
    if i < s.len() - 1 {
        let t = lemma_unclaimed_has(w, s.drop_last(), i);
        t
    } else {
        rest.len() as int
    }
}

/// Every entity of `w` that has an identifier has a bucket in `s`.
pub open spec fn accounts_for(s: Seq<(Seq<char>, Seq<(Seq<char>, Seq<u8>)>)>, w: WorldView) -> bool {
    forall|e: int|
        0 <= e < w.entities.len() && (#[trigger] w.entities[e]).id is Some ==> has_key(
            s,
            w.entities[e].id->0,
        )
}

/// `e` is the first entity of `w` that has an identifier without a bucket in
/// `s`.
pub open spec fn is_first_unaccounted(
    s: Seq<(Seq<char>, Seq<(Seq<char>, Seq<u8>)>)>,
    w: WorldView,
    e: int,
) -> bool {
    &&& 0 <= e < w.entities.len()
    &&& w.entities[e].id is Some
    &&& !has_key(s, w.entities[e].id->0)
    &&& forall|x: int|
        0 <= x < e && (#[trigger] w.entities[x]).id is Some ==> has_key(s, w.entities[x].id->0)
}

/// The changes that loading `s` makes to the first `n` entities of `w`.
pub open spec fn live_changes(
    w: WorldView,
    s: Seq<(Seq<char>, Seq<(Seq<char>, Seq<u8>)>)>,
    reg: Seq<(Seq<char>, Seq<char>)>,
    n: int,
) -> Seq<ChangeView>
    decreases n,
{
    if n <= 0 {
        Seq::empty()
    } else {
        let rest = live_changes(w, s, reg, n - 1);
        match w.entities[n - 1].id {
            Some(id) => rest + entity_changes(
                n - 1,
                w.entities[n - 1].items,
                lookup(s, id)->0,
                reg,
            ),
            None => rest,
        }
    }
}

/// The changes that loading makes for the first `j` buckets of `s` where no
/// entity of `w` has their identifier: an entity is spawned after those of
/// `w` and the bucket is loaded into it.
pub open spec fn spawn_changes(
    w: WorldView,
    s: Seq<(Seq<char>, Seq<(Seq<char>, Seq<u8>)>)>,
    reg: Seq<(Seq<char>, Seq<char>)>,
    j: int,
) -> Seq<ChangeView>
    decreases j,
{
    if j <= 0 {
        Seq::empty()
    } else {
        let rest = spawn_changes(w, s, reg, j - 1);
        if has_id(w, s[j - 1].0) {
            rest
        } else {
            let entity = (w.entities.len() + unclaimed(w, s.take(j - 1)).len()) as int;
            rest + seq![ChangeView::Spawn { entity, id: s[j - 1].0 }] + entity_changes(
                entity,
                Seq::empty(),
                s[j - 1].1,
                reg,
            )
        }
    }
}

/// `r` is `w` after the buckets `s` were loaded into it: an entity without
/// identifier is as it was; one with an identifier has its bucket merged
/// into its items; and for each bucket that no entity claimed there is one
/// more entity, in the order of the buckets, with the bucket's identifier
/// and its items of registered kinds.
pub open spec fn loads_entities(
    w: WorldView,
    s: Seq<(Seq<char>, Seq<(Seq<char>, Seq<u8>)>)>,
    reg: Seq<(Seq<char>, Seq<char>)>,
    r: WorldView,
) -> bool {
    &&& r.globals == w.globals
    &&& r.tick == w.tick
    &&& r.entities.len() == w.entities.len() + unclaimed(w, s).len()
    &&& forall|e: int|
        0 <= e < w.entities.len() ==> {
            &&& (#[trigger] r.entities[e]).id == w.entities[e].id
            &&& match w.entities[e].id {
                Some(id) => is_merge(
                    r.entities[e].items,
                    w.entities[e].items,
                    lookup(s, id)->0,
                    reg,
                ),
                None => r.entities[e] == w.entities[e],
            }
        }
    &&& forall|t: int|
        0 <= t < unclaimed(w, s).len() ==> {
            &&& (#[trigger] r.entities[w.entities.len() + t]).id == Some(unclaimed(w, s)[t].0)
            &&& is_merge(
                r.entities[w.entities.len() + t].items,
                Seq::empty(),
                unclaimed(w, s)[t].1,
                reg,
            )
        }
}

impl Snapshot {
    /// Loads the saved entities into `world`. Each entity that has an
    /// identifier gets its bucket loaded into it; then, for each bucket that
    /// no entity claimed, an entity is spawned, given the identifier, and
    /// loaded likewise. What was done is appended to `changes`.
    ///
    /// Where some entity has an identifier without a bucket, nothing is
    /// changed, and the error names the first such identifier.
    pub fn apply_entities(
        &self,
        world: &mut World,
        registry: &Table<ReflectComponent>,
        changes: &mut Vec<Change>,
    ) -> (result: Result<(), LoadError>)
        requires
            self.wf(),
            registry_wf(registry@),
            old(world).wf(),
        ensures
            final(world).wf(),
            match result {
                Ok(()) => {
                    &&& accounts_for(self@.entities, old(world)@)
                    &&& loads_entities(old(world)@, self@.entities, registry@, final(world)@)
                    &&& changes_view(final(changes)@) == changes_view(old(changes)@)
                        + live_changes(
                        old(world)@,
                        self@.entities,
                        registry@,
                        old(world)@.entities.len() as int,
                    ) + spawn_changes(
                        old(world)@,
                        self@.entities,
                        registry@,
                        self@.entities.len() as int,
                    )
                },
                Err(LoadError::MissingRollbackData(id)) => {
                    &&& final(world)@ == old(world)@
                    &&& final(changes)@ == old(changes)@
                    &&& exists|e: int| #[trigger]
                        is_first_unaccounted(self@.entities, old(world)@, e) && old(
                            world,
                        )@.entities[e].id == Some(id@)
                },
                Err(LoadError::Malformed) => false,
            },
    {
        let ghost w0 = world@;
        let ghost s = self@.entities;
        let ghost reg = registry@;
        let ghost log0 = changes_view(changes@);
        let n0 = world.entity_count();

        let mut e: usize = 0;
        while e < n0
            invariant
                e <= n0,
                n0 == w0.entities.len(),
                world@ == w0,
                world.wf(),
                self.wf(),
                s == self@.entities,
                forall|x: int|
                    0 <= x < e && (#[trigger] w0.entities[x]).id is Some ==> has_key(
                        s,
                        w0.entities[x].id->0,
                    ),
            decreases n0 - e,
        {
            match world.id(Entity(e)) {
                Some(id) => {
                    if !self.entities.contains_key(id.as_str()) {
                        assert(is_first_unaccounted(s, w0, e as int));
                        return Err(LoadError::MissingRollbackData(RollbackId(id.clone())));
                    }
                },
                None => {},
            }
            e = e + 1;
        }
        assert(accounts_for(s, w0));

        let mut e: usize = 0;
        while e < n0
            invariant
                e <= n0,
                n0 == w0.entities.len(),
                world.wf(),
                self.wf(),
                s == self@.entities,
                reg == registry@,
                registry_wf(reg),
                accounts_for(s, w0),
                world@.globals == w0.globals,
                world@.tick == w0.tick,
                world@.entities.len() == n0,
                forall|x: int|
                    0 <= x < e ==> {
                        &&& (#[trigger] world@.entities[x]).id == w0.entities[x].id
                        &&& match w0.entities[x].id {
                            Some(id) => is_merge(
                                world@.entities[x].items,
                                w0.entities[x].items,
                                lookup(s, id)->0,
                                reg,
                            ),
                            None => world@.entities[x] == w0.entities[x],
                        }
                    },
                forall|x: int| e <= x < n0 ==> (#[trigger] world@.entities[x]) == w0.entities[x],
                changes_view(changes@) == log0 + live_changes(w0, s, reg, e as int),
            decreases n0 - e,
        {
            let ghost before = world@;
            let bucket = match world.id(Entity(e)) {
                Some(id) => self.entities.get(id.as_str()),
                None => None,
            };
            proof {
                assert(before.entities[e as int] == w0.entities[e as int]);
            }
            match bucket {
                Some(components) => {
                    proof {
                        let id = w0.entities[e as int].id->0;
                        let i = choose|i: int| 0 <= i < s.len() && (#[trigger] s[i]).0 == id;
                        lemma_lookup_at(s, i);
                        assert(keys_ascend(s[i].1));
                    }
                    Self::apply_components_to(components, Entity(e), registry, world, changes);
                },
                None => {},
            }
            proof {
                assert forall|x: int| 0 <= x < e + 1 implies {
                    &&& (#[trigger] world@.entities[x]).id == w0.entities[x].id
                    &&& match w0.entities[x].id {
                        Some(id) => is_merge(
                            world@.entities[x].items,
                            w0.entities[x].items,
                            lookup(s, id)->0,
                            reg,
                        ),
                        None => world@.entities[x] == w0.entities[x],
                    }
                } by {
                    if x < e {
                        assert(world@.entities[x] == before.entities[x]);
                    }
                }
                assert forall|x: int| e + 1 <= x < n0 implies (#[trigger] world@.entities[x])
                    == w0.entities[x] by {
                    assert(world@.entities[x] == before.entities[x]);
                }
                assert(changes_view(changes@) =~= log0 + live_changes(w0, s, reg, e as int + 1));
            }
            e = e + 1;
        }

        let ghost w1 = world@;
        let ghost log1 = changes_view(changes@);
        let mut j: usize = 0;
        while j < self.entities.len()
            invariant
                j <= s.len(),
                n0 == w0.entities.len(),
                world.wf(),
                self.wf(),
                s == self@.entities,
                reg == registry@,
                registry_wf(reg),
                world_ids_kept(w0, w1),
                world@.globals == w0.globals,
                world@.tick == w0.tick,
                world@.entities.len() == n0 + unclaimed(w0, s.take(j as int)).len(),
                forall|x: int| 0 <= x < n0 ==> (#[trigger] world@.entities[x]) == w1.entities[x],
                forall|t: int|
                    0 <= t < unclaimed(w0, s.take(j as int)).len() ==> {
                        &&& (#[trigger] world@.entities[n0 + t]).id == Some(
                            unclaimed(w0, s.take(j as int))[t].0,
                        )
                        &&& is_merge(
                            world@.entities[n0 + t].items,
                            Seq::empty(),
                            unclaimed(w0, s.take(j as int))[t].1,
                            reg,
                        )
                    },
                changes_view(changes@) == log1 + spawn_changes(w0, s, reg, j as int),
            decreases s.len() - j,
        {
            let ghost before = world@;
            let ghost u = unclaimed(w0, s.take(j as int));
            let ghost log = changes_view(changes@);
            let key = self.entities.key_at(j);
            proof {
                assert(s.take(j as int + 1).drop_last() =~= s.take(j as int));
                assert(s.take(j as int + 1).last() == s[j as int]);
                if has_id(before, key@) {
                    let x = choose|x: int|
                        0 <= x < before.entities.len() && (#[trigger] before.entities[x]).id
                            == Some(key@);
                    if x < n0 {
                        assert(before.entities[x] == w1.entities[x]);
                        assert(w1.entities[x].id == w0.entities[x].id);
                        assert(w0.entities[x].id == Some(key@));
                    } else {
                        let t = x - n0;
                        assert(before.entities[n0 + t].id == Some(u[t].0));
                        let i = lemma_unclaimed_from(w0, s.take(j as int), t);
                        assert(s.take(j as int)[i] == s[i]);
                        crate::order::lemma_lex_asymmetric(
                            crate::order::key_bytes(s[i].0),
                            crate::order::key_bytes(s[j as int].0),
                        );
                    }
                }
                if has_id(w0, key@) {
                    let x = choose|x: int|
                        0 <= x < w0.entities.len() && (#[trigger] w0.entities[x]).id == Some(
                            key@,
                        );
                    assert(before.entities[x] == w1.entities[x]);
                    assert(w1.entities[x].id == w0.entities[x].id);
                }
                assert(has_id(before, key@) == has_id(w0, key@));
            }
            match world.find(key.as_str()) {
                Some(_) => {},
                None => {
                    let entity = world.spawn();
                    let ghost spawned = world@;
                    proof {
                        assert forall|x: int| 0 <= x < spawned.entities.len() implies (
                        #[trigger] spawned.entities[x]).id != Some(key@) by {
                            if x < before.entities.len() {
                                assert(spawned.entities[x] == before.entities[x]);
                            }
                        }
                    }
                    let done = world.set_id(entity, RollbackId(key.clone()));
                    assert(done);
                    changes.push(Change::Spawn { entity, id: RollbackId(key.clone()) });
                    proof {
                        assert(changes_view(changes@) =~= log.push(
                            ChangeView::Spawn { entity: entity.0 as int, id: key@ },
                        ));
                        assert(keys_ascend(s[j as int].1));
                    }
                    let ghost named = world@;
                    Self::apply_components_to(
                        self.entities.value_at(j),
                        entity,
                        registry,
                        world,
                        changes,
                    );
                    proof {
                        assert(named.entities[entity.0 as int].items =~= Seq::empty());
                        assert forall|x: int| 0 <= x < n0 implies (#[trigger] world@.entities[x])
                            == w1.entities[x] by {
                            assert(world@.entities[x] == named.entities[x]);
                            assert(named.entities[x] == spawned.entities[x]);
                            assert(spawned.entities[x] == before.entities[x]);
                        }
                        assert forall|t: int| 0 <= t < u.len() implies {
                            &&& (#[trigger] world@.entities[n0 + t]).id == Some(u[t].0)
                            &&& is_merge(world@.entities[n0 + t].items, Seq::empty(), u[t].1, reg)
                        } by {
                            assert(world@.entities[n0 + t] == named.entities[n0 + t]);
                            assert(named.entities[n0 + t] == spawned.entities[n0 + t]);
                            assert(spawned.entities[n0 + t] == before.entities[n0 + t]);
                        }
                    }
                },
            }
            proof {
                let u1 = unclaimed(w0, s.take(j as int + 1));
                assert forall|t: int| 0 <= t < u1.len() implies {
                    &&& (#[trigger] world@.entities[n0 + t]).id == Some(u1[t].0)
                    &&& is_merge(world@.entities[n0 + t].items, Seq::empty(), u1[t].1, reg)
                } by {
                    if t < u.len() {
                        assert(u1[t] == u[t]);
                    }
                }
                assert forall|x: int| 0 <= x < n0 implies (#[trigger] world@.entities[x])
                    == w1.entities[x] by {}
                assert(changes_view(changes@) =~= log1 + spawn_changes(
                    w0,
                    s,
                    reg,
                    j as int + 1,
                ));
            }
            j = j + 1;
        }
        proof {
            assert(s.take(s.len() as int) =~= s);
            assert forall|x: int| 0 <= x < w0.entities.len() implies {
                &&& (#[trigger] world@.entities[x]).id == w0.entities[x].id
                &&& match w0.entities[x].id {
                    Some(id) => is_merge(
                        world@.entities[x].items,
                        w0.entities[x].items,
                        lookup(s, id)->0,
                        reg,
                    ),
                    None => world@.entities[x] == w0.entities[x],
                }
            } by {
                assert(world@.entities[x] == w1.entities[x]);
            }
            assert(changes_view(changes@) =~= log0 + live_changes(w0, s, reg, n0 as int)
                + spawn_changes(w0, s, reg, s.len() as int));
        }
        Ok(())
    }
}

/// `r` has as many entities as `w`, under the identifiers that they have in
/// `w`.
pub open spec fn world_ids_kept(w: WorldView, r: WorldView) -> bool {
    &&& r.entities.len() == w.entities.len()
    &&& forall|x: int| 0 <= x < w.entities.len() ==> (#[trigger] r.entities[x]).id == w.entities[x].id
}

/// The bytes of a snapshot: its entities, then its global items.
pub open spec fn enc_snapshot(s: SnapshotView) -> Seq<u8> {
    enc_nested(s.entities) + enc_table(s.globals)
}

/// The snapshot that `b` is the bytes of, if it is the bytes of one:
/// entities and global items that end where `b` ends, all keys ascending.
pub open spec fn dec_snapshot(b: Seq<u8>) -> Option<SnapshotView> {
    match dec_nested(b) {
        Some((entities, rest)) => match dec_table(rest) {
            Some((globals, rest)) => if rest.len() == 0 {
                Some(SnapshotView { entities, globals })
            } else {
                None
            },
            None => None,
        },
        None => None,
    }
}

/// The lengths in `s` can be written in eight bytes.
pub open spec fn snapshot_fits(s: SnapshotView) -> bool {
    buckets_fit(s.entities) && items_fit(s.globals)
}

/// The bytes of a snapshot are read back as that snapshot.
pub proof fn lemma_snapshot_round_trip(s: SnapshotView)
    requires
        snapshot_wf(s),
        snapshot_fits(s),
    ensures
        dec_snapshot(enc_snapshot(s)) == Some(s),
{
    lemma_dec_nested(s.entities, enc_table(s.globals));
    assert(enc_table(s.globals) =~= enc_table(s.globals) + Seq::<u8>::empty());
    lemma_dec_table(s.globals, Seq::empty());
}

/// `s` is what saving takes of `w`: of each entity that has an identifier
/// its items of the kinds in `components`, and the global items of the
/// kinds in `resources`.
pub open spec fn saved(
    s: SnapshotView,
    w: WorldView,
    components: Seq<(Seq<char>, Seq<char>)>,
    resources: Seq<(Seq<char>, Seq<char>)>,
) -> bool {
    &&& captures_entities(s.entities, w, components)
    &&& is_restriction(s.globals, w.globals, resources)
}

/// There is one restriction of a table to a registry.
pub proof fn lemma_restriction_unique<X, Y>(
    a: Seq<(Seq<char>, X)>,
    b: Seq<(Seq<char>, X)>,
    items: Seq<(Seq<char>, X)>,
    reg: Seq<(Seq<char>, Y)>,
)
    requires
        is_restriction(a, items, reg),
        is_restriction(b, items, reg),
    ensures
        a == b,
{
    assert forall|k: Seq<char>| lookup(a, k) == lookup(b, k) by {
        assert(lookup(a, k) == kept(items, reg, k));
        assert(lookup(b, k) == kept(items, reg, k));
    }
    lemma_ascending_lists_equal(a, b);
}

/// What is found in one capture of a world is found in any other.
proof fn lemma_captures_agree(
    a: Seq<(Seq<char>, Seq<(Seq<char>, Seq<u8>)>)>,
    b: Seq<(Seq<char>, Seq<(Seq<char>, Seq<u8>)>)>,
    w: WorldView,
    reg: Seq<(Seq<char>, Seq<char>)>,
    k: Seq<char>,
)
    requires
        world_wf(w),
        captures_entities(a, w, reg),
        captures_entities(b, w, reg),
        has_key(a, k),
    ensures
        lookup(a, k) == lookup(b, k),
{
    let i = choose|i: int| 0 <= i < a.len() && (#[trigger] a[i]).0 == k;
    lemma_lookup_at(a, i);
    let e = entity_of(w, k);
    assert(w.entities[e].id == Some(k));
    lemma_restriction_empty(a[i].1, w.entities[e].items, reg);
    assert(has_key(b, w.entities[e].id->0));
    let j = choose|j: int| 0 <= j < b.len() && (#[trigger] b[j]).0 == k;
    lemma_lookup_at(b, j);
    lemma_restriction_unique(a[i].1, b[j].1, w.entities[e].items, reg);
}

/// Saving is a function of the world and the registries: two snapshots of
/// one world are equal.
pub proof fn lemma_saved_unique(
    a: SnapshotView,
    b: SnapshotView,
    w: WorldView,
    components: Seq<(Seq<char>, Seq<char>)>,
    resources: Seq<(Seq<char>, Seq<char>)>,
)
    requires
        world_wf(w),
        saved(a, w, components, resources),
        saved(b, w, components, resources),
    ensures
        a == b,
{
    assert forall|k: Seq<char>| lookup(a.entities, k) == lookup(b.entities, k) by {
        if has_key(a.entities, k) {
            lemma_captures_agree(a.entities, b.entities, w, components, k);
        } else if has_key(b.entities, k) {
            lemma_captures_agree(b.entities, a.entities, w, components, k);
        }
    }
    lemma_ascending_lists_equal(a.entities, b.entities);
    lemma_restriction_unique(a.globals, b.globals, w.globals, resources);
}

/// The snapshot that saving takes of `w`.
pub open spec fn snapshot_of(
    w: WorldView,
    components: Seq<(Seq<char>, Seq<char>)>,
    resources: Seq<(Seq<char>, Seq<char>)>,
) -> SnapshotView {
    choose|s: SnapshotView| saved(s, w, components, resources)
}

/// `r` is `w` after the snapshot `s` was loaded into it.
pub open spec fn loads(
    w: WorldView,
    s: SnapshotView,
    components: Seq<(Seq<char>, Seq<char>)>,
    resources: Seq<(Seq<char>, Seq<char>)>,
    r: WorldView,
) -> bool {
    &&& loads_entities(w, s.entities, components, WorldView { globals: w.globals, ..r })
    &&& is_merge(r.globals, w.globals, s.globals, resources)
}

/// The changes that loading `s` into `w` makes, in the order in which it
/// makes them: to the entities of `w`, then for the buckets that none of
/// them claimed, then to the global items.
pub open spec fn load_changes(
    w: WorldView,
    s: SnapshotView,
    components: Seq<(Seq<char>, Seq<char>)>,
    resources: Seq<(Seq<char>, Seq<char>)>,
) -> Seq<ChangeView> {
    live_changes(w, s.entities, components, w.entities.len() as int) + spawn_changes(
        w,
        s.entities,
        components,
        s.entities.len() as int,
    ) + resource_changes(w.globals, s.globals, resources)
}

impl Snapshot {
    /// Appends the bytes of the snapshot to `out`.
    pub fn encode(&self, out: &mut Vec<u8>)
        ensures
            final(out)@ == old(out)@ + enc_snapshot(self@),
            snapshot_fits(self@),
    {
        put_nested(out, &self.entities);
        put_table(out, &self.resources);
        proof {
            assert(out@ =~= old(out)@ + enc_snapshot(self@));
        }
    }

    /// The snapshot that `bytes` are the bytes of, if they are the bytes of
    /// one.
    pub fn decode(bytes: &[u8]) -> (r: Option<Snapshot>)
        ensures
            match r {
                Some(s) => s.wf() && dec_snapshot(bytes@) == Some(s@),
                None => dec_snapshot(bytes@) is None,
            },
    {
        proof {
            assert(bytes@.skip(0) =~= bytes@);
        }
        let (entities, p) = match take_nested(bytes, 0) {
            Some(x) => x,
            None => { return None; },
        };
        let (resources, p) = match take_table(bytes, p) {
            Some(x) => x,
            None => { return None; },
        };
        if p != bytes.len() {
            return None;
        }
        Some(Snapshot { entities, resources })
    }
}

/// The kinds of items that snapshots hold, per entity and global, and with
/// them the saving and loading of worlds.
pub struct Snapshotter {
    component_registry: Table<ReflectComponent>,
    resource_registry: Table<ReflectResource>,
}

impl Default for Snapshotter {
    fn default() -> (s: Self)
        ensures
            s.wf(),
            s.components().len() == 0,
            s.resources().len() == 0,
    {
        Snapshotter::new()
    }
}

impl Snapshotter {
    /// The registered kinds of per-entity items, each under its name.
    pub closed spec fn components(&self) -> Seq<(Seq<char>, Seq<char>)> {
        self.component_registry@
    }

    /// The registered kinds of global items, each under its name.
    pub closed spec fn resources(&self) -> Seq<(Seq<char>, Seq<char>)> {
        self.resource_registry@
    }

    /// Each kind is registered under its own name, in ascending order.
    pub open spec fn wf(&self) -> bool {
        registry_wf(self.components()) && registry_wf(self.resources())
    }

    /// A snapshotter without registered kinds.
    pub fn new() -> (s: Self)
        ensures
            s.wf(),
            s.components().len() == 0,
            s.resources().len() == 0,
    {
        Snapshotter { component_registry: Table::new(), resource_registry: Table::new() }
    }

    /// The registry of the kinds of per-entity items.
    pub fn component_registry(&self) -> (r: &Table<ReflectComponent>)
        ensures
            r@ == self.components(),
    {
        &self.component_registry
    }

    /// The registry of the kinds of global items.
    pub fn resource_registry(&self) -> (r: &Table<ReflectResource>)
        ensures
            r@ == self.resources(),
    {
        &self.resource_registry
    }

    /// Registers the kind of per-entity item called `kind`. Registering a
    /// kind again changes nothing.
    pub fn register_component(&mut self, kind: String)
        requires
            old(self).wf(),
        ensures
            final(self).wf(),
            final(self).resources() == old(self).resources(),
            forall|k: Seq<char>|
                has_key(final(self).components(), k) <==> (k == kind@ || has_key(
                    old(self).components(),
                    k,
                )),
            has_key(old(self).components(), kind@) ==> final(self).components() == old(
                self,
            ).components(),
    {
        let ghost before = self.component_registry@;
        let reflect = ReflectComponent::from_type(kind.clone());
        self.component_registry.insert(kind, reflect);
        proof {
            let after = self.component_registry@;
            lemma_registered(before, after, kind@);
        }
    }

    /// Registers the kind of global item called `kind`. Registering a kind
    /// again changes nothing.
    pub fn register_resource(&mut self, kind: String)
        requires
            old(self).wf(),
        ensures
            final(self).wf(),
            final(self).components() == old(self).components(),
            forall|k: Seq<char>|
                has_key(final(self).resources(), k) <==> (k == kind@ || has_key(
                    old(self).resources(),
                    k,
                )),
            has_key(old(self).resources(), kind@) ==> final(self).resources() == old(
                self,
            ).resources(),
    {
        let ghost before = self.resource_registry@;
        let reflect = ReflectResource::from_type(kind.clone());
        self.resource_registry.insert(kind, reflect);
        proof {
            let after = self.resource_registry@;
            lemma_registered(before, after, kind@);
        }
    }

    /// Appends to `vec` the bytes of the snapshot of `world`.
    pub fn save_to(&mut self, vec: &mut Vec<u8>, world: &World)
        requires
            old(self).wf(),
            world.wf(),
        ensures
            *final(self) == *old(self),
            saved(
                snapshot_of(world@, old(self).components(), old(self).resources()),
                world@,
                old(self).components(),
                old(self).resources(),
            ),
            final(vec)@ == old(vec)@ + enc_snapshot(
                snapshot_of(world@, old(self).components(), old(self).resources()),
            ),
            dec_snapshot(final(vec)@.skip(old(vec)@.len() as int)) == Some(
                snapshot_of(world@, old(self).components(), old(self).resources()),
            ),
    {
        let mut snapshot = Snapshot::new();
        snapshot.fill_entities(world, &self.component_registry);
        snapshot.fill_resources(world, &self.resource_registry);
        proof {
            let s = snapshot@;
            assert(saved(s, world@, self.components(), self.resources()));
            lemma_saved_unique(
                s,
                snapshot_of(world@, self.components(), self.resources()),
                world@,
                self.components(),
                self.resources(),
            );
        }
        snapshot.encode(vec);
        proof {
            lemma_snapshot_round_trip(snapshot@);
            assert(vec@.skip(old(vec)@.len() as int) =~= enc_snapshot(snapshot@));
        }
    }

    /// Loads the snapshot that `slice` holds into `world`, and returns what
    /// it did to the world, in order.
    ///
    /// Where `slice` is not the bytes of a snapshot, or the world has an
    /// entity whose identifier the snapshot has no bucket for, nothing is
    /// changed.
    pub fn load_from(&mut self, slice: &[u8], world: &mut World) -> (result: Result<
        Vec<Change>,
        LoadError,
    >)
        requires
            old(self).wf(),
            old(world).wf(),
        ensures
            *final(self) == *old(self),
            final(world).wf(),
            match dec_snapshot(slice@) {
                None => result == Err::<Vec<Change>, LoadError>(LoadError::Malformed)
                    && final(world)@ == old(world)@,
                Some(s) => if accounts_for(s.entities, old(world)@) {
                    &&& result is Ok
                    &&& loads(
                        old(world)@,
                        s,
                        old(self).components(),
                        old(self).resources(),
                        final(world)@,
                    )
                    &&& changes_view(result->Ok_0@) == load_changes(
                        old(world)@,
                        s,
                        old(self).components(),
                        old(self).resources(),
                    )
                } else {
                    &&& final(world)@ == old(world)@
                    &&& result matches Err(LoadError::MissingRollbackData(id))
                    &&& exists|e: int| #[trigger]
                        is_first_unaccounted(s.entities, old(world)@, e) && old(
                            world,
                        )@.entities[e].id == Some(id@)
                },
            },
    {
        let snapshot = match Snapshot::decode(slice) {
            Some(s) => s,
            None => { return Err(LoadError::Malformed); },
        };
        let mut changes: Vec<Change> = Vec::new();
        let ghost w0 = world@;
        match snapshot.apply_entities(world, &self.component_registry, &mut changes) {
            Ok(()) => {},
            Err(e) => {
                proof {
                    let x = choose|x: int| #[trigger]
                        is_first_unaccounted(snapshot@.entities, w0, x);
                    assert(!accounts_for(snapshot@.entities, w0));
                }
                return Err(e);
            },
        }
        let ghost w1 = world@;
        snapshot.apply_resources(world, &self.resource_registry, &mut changes);
        proof {
            assert(changes_view(Seq::<Change>::empty()) =~= Seq::<ChangeView>::empty());
            assert((WorldView { globals: w0.globals, ..world@ }) == w1);
            assert(changes_view(changes@) =~= load_changes(
                w0,
                snapshot@,
                self.components(),
                self.resources(),
            ));
        }
        Ok(changes)
    }
}

/// Putting a kind under its own name into a registry keeps the registry
/// well-formed, and changes nothing where the kind was there.
proof fn lemma_registered(
    before: Seq<(Seq<char>, Seq<char>)>,
    after: Seq<(Seq<char>, Seq<char>)>,
    kind: Seq<char>,
)
    requires
        registry_wf(before),
        keys_ascend(after),
        forall|k: Seq<char>|
            #[trigger] lookup(after, k) == if k == kind {
                Some(kind)
            } else {
                lookup(before, k)
            },
    ensures
        registry_wf(after),
        forall|k: Seq<char>| has_key(after, k) <==> (k == kind || has_key(before, k)),
        has_key(before, kind) ==> after == before,
{
    assert forall|i: int| 0 <= i < after.len() implies (#[trigger] after[i]).1 == after[i].0 by {
        lemma_lookup_at(after, i);
        let k = after[i].0;
        if k != kind {
            assert(lookup(after, k) == lookup(before, k));
            let j = choose|j: int| 0 <= j < before.len() && (#[trigger] before[j]).0 == k;
            lemma_lookup_at(before, j);
        }
    }
    assert forall|k: Seq<char>| has_key(after, k) <==> (k == kind || has_key(before, k)) by {
        assert(lookup(after, k) == if k == kind {
            Some(kind)
        } else {
            lookup(before, k)
        });
    }
    if has_key(before, kind) {
        let j = choose|j: int| 0 <= j < before.len() && (#[trigger] before[j]).0 == kind;
        lemma_lookup_at(before, j);
        assert forall|k: Seq<char>| lookup(after, k) == lookup(before, k) by {
            assert(lookup(after, k) == if k == kind {
                Some(kind)
            } else {
                lookup(before, k)
            });
        }
        lemma_ascending_lists_equal(after, before);
    }
}

} // verus!
