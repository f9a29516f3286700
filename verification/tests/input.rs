use bevy_rbrb::input::{parse_inputs, InputError, PlayerInputs};

#[test]
fn a_player_has_one_input() {
    let mut inputs: PlayerInputs<u32> = PlayerInputs::new();
    inputs.insert(3, 30);
    inputs.insert(1, 10);
    inputs.insert(3, 31);
    assert_eq!(inputs.len(), 2);
    assert_eq!(inputs.player_at(0), 3);
    assert_eq!(inputs.input_at(0), &31);
    assert_eq!(inputs.player_at(1), 1);
    assert_eq!(inputs.get(1), Some(&10));
    assert_eq!(inputs.get(2), None);
    assert_eq!(inputs.position(1), Some(1));
    assert_eq!(inputs.position(9), None);
}

fn raw(entries: &[(u16, u32)]) -> PlayerInputs<Vec<u8>> {
    let mut inputs = PlayerInputs::new();
    for (player, value) in entries {
        inputs.insert(*player, bincode::serialize(value).unwrap());
    }
    inputs
}

#[test]
fn every_player_s_bytes_are_parsed() {
    let inputs = raw(&[(0, 7), (1, 8)]);
    let parsed = parse_inputs(&inputs, |b: &Vec<u8>| bincode::deserialize::<u32>(b).ok()).unwrap();
    assert_eq!(parsed.len(), 2);
    assert_eq!(parsed.get(0), Some(&7));
    assert_eq!(parsed.get(1), Some(&8));
    assert_eq!(parsed.player_at(1), 1);
}

#[test]
fn one_player_s_bad_bytes_fail_the_whole_tick() {
    let mut inputs = raw(&[(0, 7)]);
    inputs.insert(5, vec![1]);
    inputs.insert(6, vec![]);
    let parsed = parse_inputs(&inputs, |b: &Vec<u8>| bincode::deserialize::<u32>(b).ok());
    assert_eq!(parsed.err(), Some(InputError::Undecodable(5)));
}

#[test]
fn no_players_parse_to_no_inputs() {
    let inputs: PlayerInputs<Vec<u8>> = PlayerInputs::new();
    let parsed = parse_inputs(&inputs, |_: &Vec<u8>| None::<u32>).unwrap();
    assert_eq!(parsed.len(), 0);
}
