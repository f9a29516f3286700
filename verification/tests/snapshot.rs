use bevy_rbrb::snapshot::reflect_component::ReflectComponent;
use bevy_rbrb::snapshot::reflect_resource::ReflectResource;
use bevy_rbrb::snapshot::{decide, Change, Effect, LoadError, Snapshot, Snapshotter};
use bevy_rbrb::world::{Entity, RollbackId, World};
use std::collections::BTreeMap;

fn kinds() -> Snapshotter {
    let mut snapshotter = Snapshotter::new();
    snapshotter.register_component("Position".to_string());
    snapshotter.register_component("Health".to_string());
    snapshotter.register_resource("Score".to_string());
    snapshotter
}

fn id(s: &str) -> RollbackId {
    RollbackId(s.to_string())
}

#[test]
fn saved_bytes_are_those_bincode_writes_for_the_same_maps() {
    let mut world = World::new();
    let b = world.spawn();
    let a = world.spawn();
    let plain = world.spawn();
    assert!(world.set_id(b, id("player/1")));
    assert!(world.set_id(a, id("player/0")));
    world.insert(a, "Position".to_string(), vec![1, 2, 3]);
    world.insert(a, "Health".to_string(), vec![9]);
    world.insert(a, "Unregistered".to_string(), vec![7, 7]);
    world.insert(b, "Position".to_string(), vec![]);
    world.insert(plain, "Position".to_string(), vec![5]);
    world.insert_resource("Score".to_string(), vec![0, 0, 1]);
    world.insert_resource("Other".to_string(), vec![4]);

    let mut bytes = Vec::new();
    kinds().save_to(&mut bytes, &world);

    let mut entities: BTreeMap<String, BTreeMap<String, Vec<u8>>> = BTreeMap::new();
    let mut bucket = BTreeMap::new();
    bucket.insert("Position".to_string(), vec![1u8, 2, 3]);
    bucket.insert("Health".to_string(), vec![9u8]);
    entities.insert("player/0".to_string(), bucket);
    let mut bucket = BTreeMap::new();
    bucket.insert("Position".to_string(), Vec::<u8>::new());
    entities.insert("player/1".to_string(), bucket);
    let mut resources: BTreeMap<String, Vec<u8>> = BTreeMap::new();
    resources.insert("Score".to_string(), vec![0u8, 0, 1]);
    let expected = bincode::serialize(&(entities, resources)).unwrap();
    assert_eq!(bytes, expected);
}

#[test]
fn save_appends_to_the_buffer() {
    let world = World::new();
    let mut bytes = vec![0xAA];
    kinds().save_to(&mut bytes, &world);
    assert_eq!(bytes, vec![0xAA, 0, 0, 0, 0, 0, 0, 0, 0, 0, 0, 0, 0, 0, 0, 0, 0]);
}

#[test]
fn load_applies_adds_removes_and_spawns() {
    let mut source = World::new();
    let a = source.spawn();
    let b = source.spawn();
    assert!(source.set_id(a, id("a")));
    assert!(source.set_id(b, id("b")));
    source.insert(a, "Position".to_string(), vec![1]);
    source.insert(a, "Health".to_string(), vec![2]);
    source.insert(b, "Health".to_string(), vec![3]);
    source.insert_resource("Score".to_string(), vec![4]);
    let mut bytes = Vec::new();
    let mut snapshotter = kinds();
    snapshotter.save_to(&mut bytes, &source);

    let mut target = World::new();
    let x = target.spawn();
    assert!(target.set_id(x, id("a")));
    target.insert(x, "Position".to_string(), vec![9]);
    target.insert(x, "Unregistered".to_string(), vec![8]);
    let changes = snapshotter.load_from(&bytes, &mut target).unwrap();
    assert_eq!(
        changes,
        vec![
            Change::Add { entity: x, kind: "Health".to_string(), value: vec![2] },
            Change::Apply { entity: x, kind: "Position".to_string(), value: vec![1] },
            Change::Spawn { entity: Entity(1), id: id("b") },
            Change::Add { entity: Entity(1), kind: "Health".to_string(), value: vec![3] },
            Change::AddResource { kind: "Score".to_string(), value: vec![4] },
        ]
    );
    assert_eq!(target.get(x, "Position"), Some(&vec![1]));
    assert_eq!(target.get(x, "Health"), Some(&vec![2]));
    assert_eq!(target.get(x, "Unregistered"), Some(&vec![8]));
    assert_eq!(target.find("b"), Some(Entity(1)));
    assert_eq!(target.get(Entity(1), "Health"), Some(&vec![3]));
    assert_eq!(target.get_resource("Score"), Some(&vec![4]));
}

#[test]
fn load_fails_for_an_entity_without_a_bucket() {
    let mut bytes = Vec::new();
    let mut snapshotter = kinds();
    snapshotter.save_to(&mut bytes, &World::new());
    let mut target = World::new();
    let x = target.spawn();
    assert!(target.set_id(x, id("ghost")));
    target.insert(x, "Position".to_string(), vec![9]);
    assert_eq!(
        snapshotter.load_from(&bytes, &mut target),
        Err(LoadError::MissingRollbackData(id("ghost")))
    );
    assert_eq!(target.get(x, "Position"), Some(&vec![9]));
}

#[test]
fn load_refuses_bytes_that_are_no_snapshot() {
    let mut snapshotter = kinds();
    let mut target = World::new();
    assert_eq!(snapshotter.load_from(&[1, 2, 3], &mut target), Err(LoadError::Malformed));
    let mut bytes = Vec::new();
    snapshotter.save_to(&mut bytes, &target);
    bytes.push(0);
    assert_eq!(snapshotter.load_from(&bytes, &mut target), Err(LoadError::Malformed));
}

#[test]
fn the_four_quadrants_have_four_effects() {
    assert_eq!(decide(true, true), Effect::Apply);
    assert_eq!(decide(false, true), Effect::Add);
    assert_eq!(decide(true, false), Effect::Remove);
    assert_eq!(decide(false, false), Effect::Nothing);
}

#[test]
fn loading_into_an_entity_covers_the_four_quadrants() {
    let mut snapshotter = Snapshotter::new();
    for kind in ["Both", "Live", "Loaded", "Neither"] {
        snapshotter.register_component(kind.to_string());
    }
    let mut source = World::new();
    let e = source.spawn();
    assert!(source.set_id(e, id("e")));
    source.insert(e, "Both".to_string(), vec![1]);
    source.insert(e, "Loaded".to_string(), vec![2]);
    let mut bytes = Vec::new();
    snapshotter.save_to(&mut bytes, &source);

    let mut target = World::new();
    let t = target.spawn();
    assert!(target.set_id(t, id("e")));
    target.insert(t, "Both".to_string(), vec![8]);
    target.insert(t, "Live".to_string(), vec![9]);
    let changes = snapshotter.load_from(&bytes, &mut target).unwrap();
    assert_eq!(
        changes,
        vec![
            Change::Apply { entity: t, kind: "Both".to_string(), value: vec![1] },
            Change::Remove { entity: t, kind: "Live".to_string() },
            Change::Add { entity: t, kind: "Loaded".to_string(), value: vec![2] },
        ]
    );
    assert_eq!(target.get(t, "Both"), Some(&vec![1]));
    assert_eq!(target.get(t, "Live"), None);
    assert_eq!(target.get(t, "Loaded"), Some(&vec![2]));
    assert_eq!(target.get(t, "Neither"), None);
}

#[test]
fn loading_global_items_covers_the_four_quadrants() {
    let mut snapshotter = Snapshotter::new();
    for kind in ["Both", "Live", "Loaded", "Neither"] {
        snapshotter.register_resource(kind.to_string());
    }
    let mut source = World::new();
    source.insert_resource("Both".to_string(), vec![1]);
    source.insert_resource("Loaded".to_string(), vec![2]);
    let mut bytes = Vec::new();
    snapshotter.save_to(&mut bytes, &source);

    let mut target = World::new();
    target.insert_resource("Both".to_string(), vec![8]);
    target.insert_resource("Live".to_string(), vec![9]);
    target.insert_resource("Unregistered".to_string(), vec![7]);
    let changes = snapshotter.load_from(&bytes, &mut target).unwrap();
    assert_eq!(
        changes,
        vec![
            Change::ApplyResource { kind: "Both".to_string(), value: vec![1] },
            Change::RemoveResource { kind: "Live".to_string() },
            Change::AddResource { kind: "Loaded".to_string(), value: vec![2] },
        ]
    );
    assert_eq!(target.get_resource("Both"), Some(&vec![1]));
    assert_eq!(target.get_resource("Live"), None);
    assert_eq!(target.get_resource("Loaded"), Some(&vec![2]));
    assert_eq!(target.get_resource("Neither"), None);
    assert_eq!(target.get_resource("Unregistered"), Some(&vec![7]));
}

fn populated() -> World {
    let mut world = World::new();
    let a = world.spawn();
    let plain = world.spawn();
    let b = world.spawn();
    assert!(world.set_id(a, id("a")));
    assert!(world.set_id(b, id("b")));
    world.insert(a, "Position".to_string(), vec![1, 1]);
    world.insert(a, "Health".to_string(), vec![2]);
    world.insert(b, "Position".to_string(), vec![3]);
    world.insert(plain, "Position".to_string(), vec![4]);
    world.insert_resource("Score".to_string(), vec![5]);
    world
}

#[test]
fn loading_a_world_s_own_snapshot_changes_nothing() {
    let mut world = populated();
    let mut snapshotter = kinds();
    let mut bytes = Vec::new();
    snapshotter.save_to(&mut bytes, &world);
    let changes = snapshotter.load_from(&bytes, &mut world).unwrap();
    assert!(changes.iter().all(|c| matches!(
        c,
        Change::Apply { .. } | Change::ApplyResource { .. }
    )));
    assert_eq!(changes.len(), 4);
    let mut again = Vec::new();
    snapshotter.save_to(&mut again, &world);
    assert_eq!(again, bytes);
    assert_eq!(world.entity_count(), 3);
    assert_eq!(world.get(Entity(0), "Position"), Some(&vec![1, 1]));
    assert_eq!(world.get(Entity(1), "Position"), Some(&vec![4]));
}

#[test]
fn a_loaded_world_saves_to_the_same_bytes() {
    let mut snapshotter = kinds();
    let mut bytes = Vec::new();
    snapshotter.save_to(&mut bytes, &populated());

    let mut target = World::new();
    let stale = target.spawn();
    assert!(target.set_id(stale, id("b")));
    target.insert(stale, "Health".to_string(), vec![9, 9]);
    target.insert_resource("Score".to_string(), vec![0]);
    snapshotter.load_from(&bytes, &mut target).unwrap();
    let mut again = Vec::new();
    snapshotter.save_to(&mut again, &target);
    assert_eq!(again, bytes);
    assert_eq!(target.entity_count(), 2);
    assert_eq!(target.find("a"), Some(Entity(1)));
}

#[test]
fn saved_bytes_do_not_depend_on_the_order_of_entities() {
    let mut other = World::new();
    let b = other.spawn();
    let a = other.spawn();
    assert!(other.set_id(b, id("b")));
    assert!(other.set_id(a, id("a")));
    other.insert(b, "Position".to_string(), vec![3]);
    other.insert(a, "Health".to_string(), vec![2]);
    other.insert(a, "Position".to_string(), vec![1, 1]);
    other.insert_resource("Score".to_string(), vec![5]);
    let mut first = Vec::new();
    let mut second = Vec::new();
    let mut third = Vec::new();
    kinds().save_to(&mut first, &populated());
    kinds().save_to(&mut second, &other);
    kinds().save_to(&mut third, &populated());
    assert_eq!(first, second);
    assert_eq!(first, third);
}

#[test]
fn a_bucket_without_entity_spawns_one() {
    let mut snapshotter = kinds();
    let mut bytes = Vec::new();
    snapshotter.save_to(&mut bytes, &populated());
    let mut target = World::new();
    let bystander = target.spawn();
    let changes = snapshotter.load_from(&bytes, &mut target).unwrap();
    assert_eq!(target.entity_count(), 3);
    assert_eq!(target.id(bystander), None);
    let a = target.find("a").unwrap();
    let b = target.find("b").unwrap();
    assert_eq!((a, b), (Entity(1), Entity(2)));
    assert_eq!(target.get(a, "Position"), Some(&vec![1, 1]));
    assert_eq!(target.get(a, "Health"), Some(&vec![2]));
    assert_eq!(target.get(b, "Position"), Some(&vec![3]));
    assert_eq!(target.get(b, "Health"), None);
    let spawns = changes.iter().filter(|c| matches!(c, Change::Spawn { .. })).count();
    assert_eq!(spawns, 2);
}

#[test]
fn an_entity_without_registered_items_gets_no_bucket() {
    let mut world = World::new();
    let e = world.spawn();
    assert!(world.set_id(e, id("bare")));
    world.insert(e, "Unregistered".to_string(), vec![1]);
    let mut snapshotter = kinds();
    let mut bytes = Vec::new();
    snapshotter.save_to(&mut bytes, &world);
    assert_eq!(bytes, vec![0; 16]);
    assert_eq!(
        snapshotter.load_from(&bytes, &mut world),
        Err(LoadError::MissingRollbackData(id("bare")))
    );
}

#[test]
fn the_first_entity_without_bucket_is_named() {
    let mut snapshotter = kinds();
    let mut bytes = Vec::new();
    snapshotter.save_to(&mut bytes, &populated());
    let mut target = World::new();
    for name in ["a", "x", "y"] {
        let e = target.spawn();
        assert!(target.set_id(e, id(name)));
    }
    assert_eq!(
        snapshotter.load_from(&bytes, &mut target),
        Err(LoadError::MissingRollbackData(id("x")))
    );
    assert_eq!(target.get(Entity(0), "Position"), None);
}

#[test]
fn a_kind_in_the_bytes_that_is_not_registered_is_dropped() {
    let mut all = kinds();
    all.register_component("Extra".to_string());
    all.register_resource("Bonus".to_string());
    let mut source = populated();
    source.insert(Entity(0), "Extra".to_string(), vec![6]);
    source.insert_resource("Bonus".to_string(), vec![7]);
    let mut bytes = Vec::new();
    all.save_to(&mut bytes, &source);

    let mut target = World::new();
    let changes = kinds().load_from(&bytes, &mut target).unwrap();
    let a = target.find("a").unwrap();
    assert_eq!(target.get(a, "Extra"), None);
    assert_eq!(target.get(a, "Health"), Some(&vec![2]));
    assert_eq!(target.get_resource("Bonus"), None);
    assert!(changes.iter().all(|c| !matches!(
        c,
        Change::Add { kind, .. } | Change::AddResource { kind, .. } if kind == "Extra" || kind == "Bonus"
    )));
}

#[test]
fn registering_a_kind_twice_registers_it_once() {
    let mut snapshotter = Snapshotter::new();
    snapshotter.register_component("Position".to_string());
    snapshotter.register_component("Health".to_string());
    snapshotter.register_component("Position".to_string());
    snapshotter.register_resource("Score".to_string());
    snapshotter.register_resource("Score".to_string());
    let components = snapshotter.component_registry();
    assert_eq!(components.len(), 2);
    assert_eq!(components.key_at(0), "Health");
    assert_eq!(components.value_at(0).name(), "Health");
    assert_eq!(components.key_at(1), "Position");
    assert!(components.get("Position").is_some());
    assert!(components.get("Score").is_none());
    assert_eq!(snapshotter.resource_registry().len(), 1);
    assert_eq!(snapshotter.resource_registry().value_at(0).name(), "Score");
}

#[test]
fn a_kind_s_operations_work_on_its_items_only() {
    let position = ReflectComponent::from_type("Position".to_string());
    let mut world = World::new();
    let e = world.spawn();
    world.insert(e, "Health".to_string(), vec![1]);
    assert_eq!(position.reflect_component(&world, e), None);
    assert_eq!(position.reflect_component(&world, Entity(5)), None);
    position.add_component(&mut world, e, &[2]);
    assert_eq!(position.reflect_component(&world, e), Some(&vec![2]));
    position.apply_component(&mut world, e, &[3]);
    assert_eq!(world.get(e, "Position"), Some(&vec![3]));
    assert_eq!(world.get(e, "Health"), Some(&vec![1]));
    position.remove_component(&mut world, e);
    position.remove_component(&mut world, e);
    assert_eq!(position.reflect_component(&world, e), None);
    assert_eq!(world.get(e, "Health"), Some(&vec![1]));
}

#[test]
fn a_global_kind_s_operations_work_on_its_item_only() {
    let score = ReflectResource::from_type("Score".to_string());
    let mut world = World::new();
    world.insert_resource("Other".to_string(), vec![1]);
    assert_eq!(score.reflect_resource(&world), None);
    score.add_resource(&mut world, &[2]);
    assert_eq!(score.reflect_resource(&world), Some(&vec![2]));
    score.apply_resource(&mut world, &[3]);
    assert_eq!(world.get_resource("Score"), Some(&vec![3]));
    score.remove_resource(&mut world);
    assert_eq!(score.reflect_resource(&world), None);
    assert_eq!(world.get_resource("Other"), Some(&vec![1]));
}

#[test]
fn a_snapshot_is_filled_written_and_read_back() {
    let snapshotter = kinds();
    let world = populated();
    let mut snapshot = Snapshot::new();
    snapshot.fill_entities(&world, snapshotter.component_registry());
    snapshot.fill_resources(&world, snapshotter.resource_registry());
    let mut bytes = Vec::new();
    snapshot.encode(&mut bytes);
    let back = Snapshot::decode(&bytes).unwrap();
    let mut again = Vec::new();
    back.encode(&mut again);
    assert_eq!(again, bytes);

    let mut target = World::new();
    let mut changes = Vec::new();
    assert_eq!(
        back.apply_entities(&mut target, snapshotter.component_registry(), &mut changes),
        Ok(())
    );
    back.apply_resources(&mut target, snapshotter.resource_registry(), &mut changes);
    assert_eq!(changes.len(), 6);
    assert_eq!(target.get_resource("Score"), Some(&vec![5]));
    assert!(Snapshot::decode(&bytes[..bytes.len() - 1]).is_none());
}

#[test]
fn a_snapshot_whose_identifiers_do_not_ascend_is_refused() {
    let mut entities: BTreeMap<String, BTreeMap<String, Vec<u8>>> = BTreeMap::new();
    entities.insert("a".to_string(), BTreeMap::new());
    entities.insert("b".to_string(), BTreeMap::new());
    let resources: BTreeMap<String, Vec<u8>> = BTreeMap::new();
    let good = bincode::serialize(&(entities, resources.clone())).unwrap();
    assert!(Snapshot::decode(&good).is_some());
    let pairs =
        vec![("b".to_string(), resources.clone()), ("a".to_string(), resources.clone())];
    let bad = bincode::serialize(&(pairs, resources)).unwrap();
    assert_eq!(bad.len(), good.len());
    assert!(Snapshot::decode(&bad).is_none());
}
