use bevy_rbrb::input::{Confirmation, PlayerInputs};
use bevy_rbrb::snapshot::{Change, LoadError};
use bevy_rbrb::stage::{Action, RbrbStage, Request, StageError};
use bevy_rbrb::world::{RollbackId, World};
use std::time::Duration;

fn stage() -> RbrbStage {
    let mut stage = RbrbStage::new();
    stage.snapshotter.register_component("Position".to_string());
    stage
}

fn world() -> World {
    let mut world = World::new();
    let e = world.spawn();
    assert!(world.set_id(e, RollbackId("p".to_string())));
    world.insert(e, "Position".to_string(), vec![1, 2]);
    world
}

#[test]
fn a_new_stage_has_no_systems() {
    let stage = RbrbStage::new();
    assert!(!stage.get_inputs);
    assert!(!stage.parse_inputs);
    assert_eq!(stage.snapshotter.component_registry().len(), 0);
    assert_eq!(stage.snapshotter.resource_registry().len(), 0);
}

#[test]
fn capturing_needs_an_input_system() {
    let mut stage = stage();
    let mut world = world();
    let mut buffer = Vec::new();
    assert_eq!(
        stage.handle_request(Request::CaptureLocalInput, &mut world, &mut buffer),
        Err(StageError::NoInputSystem)
    );
    stage.get_inputs = true;
    assert_eq!(
        stage.handle_request(Request::CaptureLocalInput, &mut world, &mut buffer),
        Ok(Action::CaptureLocalInput)
    );
    assert!(buffer.is_empty());
}

#[test]
fn what_a_tick_needs_is_gone_when_the_tick_is_over() {
    let mut stage = stage();
    let mut world = world();
    let mut buffer = Vec::new();
    let mut inputs = PlayerInputs::new();
    inputs.insert(0, vec![9u8]);
    let request = Request::Advance {
        inputs,
        amount: Duration::from_millis(16),
        confirmed: Confirmation::Subsequent,
    };
    assert_eq!(
        stage.handle_request(request, &mut world, &mut buffer),
        Ok(Action::RunTick { parse: false })
    );
    let tick = world.tick().unwrap();
    assert_eq!(tick.inputs.get(0), Some(&vec![9u8]));
    assert_eq!(tick.time.delta, Duration::from_millis(16));
    assert_eq!(tick.confirmed, Confirmation::Subsequent);
    stage.complete_advance(&mut world);
    assert!(world.tick().is_none());
    assert_eq!(world.get(bevy_rbrb::world::Entity(0), "Position"), Some(&vec![1, 2]));
}

#[test]
fn a_tick_parses_where_a_parser_is_installed() {
    let mut stage = stage();
    stage.parse_inputs = true;
    let mut world = world();
    let request = Request::Advance {
        inputs: PlayerInputs::new(),
        amount: Duration::from_millis(1),
        confirmed: Confirmation::First,
    };
    assert_eq!(
        stage.handle_request(request, &mut world, &mut Vec::new()),
        Ok(Action::RunTick { parse: true })
    );
}

#[test]
fn saving_and_loading_go_through_the_buffer() {
    let mut stage = stage();
    let mut world = world();
    let mut buffer = Vec::new();
    assert_eq!(stage.handle_request(Request::SaveTo, &mut world, &mut buffer), Ok(Action::Saved));
    assert!(!buffer.is_empty());

    let mut other = World::new();
    let kept = buffer.clone();
    let result = stage.handle_request(Request::LoadFrom(buffer.clone()), &mut other, &mut buffer);
    assert_eq!(
        result,
        Ok(Action::Loaded(vec![
            Change::Spawn {
                entity: bevy_rbrb::world::Entity(0),
                id: RollbackId("p".to_string())
            },
            Change::Add {
                entity: bevy_rbrb::world::Entity(0),
                kind: "Position".to_string(),
                value: vec![1, 2]
            },
        ]))
    );
    assert_eq!(buffer, kept);
    assert_eq!(
        stage.handle_request(Request::LoadFrom(vec![1]), &mut other, &mut buffer),
        Err(StageError::Load(LoadError::Malformed))
    );
}

#[test]
fn an_unknown_request_is_an_error() {
    let mut stage = stage();
    let mut world = world();
    let mut buffer = vec![5];
    assert_eq!(
        stage.handle_request(Request::Other("Checksum".to_string()), &mut world, &mut buffer),
        Err(StageError::Unhandled("Checksum".to_string()))
    );
    assert_eq!(buffer, vec![5]);
    assert!(world.tick().is_none());
    assert_eq!(world.entity_count(), 1);
}
