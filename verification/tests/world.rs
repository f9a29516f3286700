use bevy_rbrb::input::{Confirmation, PlayerInputs};
use bevy_rbrb::world::{Entity, RollbackId, Tick, World};
use bevy_rbrb::RbrbTime;
use std::time::Duration;

#[test]
fn spawn_gives_handles_in_order() {
    let mut world = World::new();
    assert_eq!(world.spawn(), Entity(0));
    assert_eq!(world.spawn(), Entity(1));
    assert_eq!(world.entity_count(), 2);
    assert!(world.contains(Entity(1)));
    assert!(!world.contains(Entity(2)));
}

#[test]
fn an_identifier_belongs_to_one_entity() {
    let mut world = World::new();
    let a = world.spawn();
    let b = world.spawn();
    assert!(world.set_id(a, RollbackId("player/0".to_string())));
    assert!(!world.set_id(b, RollbackId("player/0".to_string())));
    assert!(world.set_id(a, RollbackId("player/0".to_string())));
    assert_eq!(world.find("player/0"), Some(a));
    assert_eq!(world.find("player/1"), None);
    assert_eq!(world.id(a).map(|s| s.as_str()), Some("player/0"));
    assert_eq!(world.id(b), None);
}

#[test]
fn items_are_held_per_entity_and_kind() {
    let mut world = World::new();
    let a = world.spawn();
    let b = world.spawn();
    world.insert(a, "Position".to_string(), vec![1]);
    world.insert(b, "Position".to_string(), vec![2]);
    world.insert(a, "Position".to_string(), vec![3]);
    assert_eq!(world.get(a, "Position"), Some(&vec![3]));
    assert_eq!(world.get(b, "Position"), Some(&vec![2]));
    assert!(world.has(a, "Position"));
    assert!(!world.has(a, "Health"));
    assert!(world.remove(a, "Position"));
    assert!(!world.remove(a, "Position"));
    assert_eq!(world.get(a, "Position"), None);
    assert_eq!(world.get(b, "Position"), Some(&vec![2]));
}

#[test]
fn global_items_are_held_per_kind() {
    let mut world = World::new();
    assert_eq!(world.get_resource("Score"), None);
    world.insert_resource("Score".to_string(), vec![1]);
    world.insert_resource("Score".to_string(), vec![2]);
    assert!(world.has_resource("Score"));
    assert_eq!(world.get_resource("Score"), Some(&vec![2]));
    assert!(world.remove_resource("Score"));
    assert!(!world.remove_resource("Score"));
    assert!(!world.has_resource("Score"));
}

#[test]
fn what_is_put_in_for_a_tick_is_taken_out_whole() {
    let mut world = World::new();
    assert!(world.tick().is_none());
    let mut inputs = PlayerInputs::new();
    inputs.insert(0, vec![1u8]);
    world.insert_tick(Tick {
        inputs,
        time: RbrbTime { delta: Duration::from_millis(10) },
        confirmed: Confirmation::First,
    });
    let tick = world.tick().unwrap();
    assert_eq!(tick.time.delta, Duration::from_millis(10));
    assert_eq!(tick.confirmed, Confirmation::First);
    assert_eq!(tick.inputs.get(0), Some(&vec![1u8]));
    assert!(world.remove_tick().is_some());
    assert!(world.tick().is_none());
    assert!(world.remove_tick().is_none());
}
