use bevy_rbrb::event::{Confirmed, NetworkEventWriter, RbrbFrame, Unconfirmed};
use bevy_rbrb::input::Confirmation;

fn values_of(events: Vec<Unconfirmed<u32>>) -> Vec<u32> {
    events.into_iter().map(|e| e.0).collect()
}

#[test]
fn three_sends_with_the_flag_set_once_confirm_one_event() {
    let mut writer: NetworkEventWriter<u32> = NetworkEventWriter::new();
    writer.begin_tick(RbrbFrame(4), Confirmation::Unconfirmed);
    writer.send(1);
    writer.begin_tick(RbrbFrame(4), Confirmation::First);
    writer.send(2);
    writer.begin_tick(RbrbFrame(4), Confirmation::Unconfirmed);
    writer.send(3);
    let confirmed: Vec<u32> = writer.take_confirmed().into_iter().map(|e| e.0).collect();
    assert_eq!(confirmed, vec![2]);
    assert_eq!(values_of(writer.take_unconfirmed()), vec![1, 2, 3]);
}

#[test]
fn an_event_goes_out_unconfirmed_once_per_tick() {
    let mut writer: NetworkEventWriter<u32> = NetworkEventWriter::new();
    writer.begin_tick(RbrbFrame(4), Confirmation::Unconfirmed);
    writer.send(1);
    writer.send(1);
    writer.begin_tick(RbrbFrame(4), Confirmation::First);
    writer.send(1);
    writer.begin_tick(RbrbFrame(4), Confirmation::Subsequent);
    writer.send(1);
    assert_eq!(values_of(writer.take_unconfirmed()), vec![1]);
    assert_eq!(writer.take_confirmed().len(), 1);
}

#[test]
fn the_ledger_is_dropped_when_another_tick_begins() {
    let mut writer: NetworkEventWriter<u32> = NetworkEventWriter::new();
    writer.begin_tick(RbrbFrame(1), Confirmation::Unconfirmed);
    writer.send(7);
    writer.begin_tick(RbrbFrame(2), Confirmation::Unconfirmed);
    writer.send(7);
    writer.begin_tick(RbrbFrame(1), Confirmation::Unconfirmed);
    writer.send(7);
    assert_eq!(values_of(writer.take_unconfirmed()), vec![7, 7, 7]);
    assert_eq!(writer.take_confirmed().len(), 0);
}

#[test]
fn taking_events_leaves_none() {
    let mut writer: NetworkEventWriter<String> = NetworkEventWriter::new();
    writer.begin_tick(RbrbFrame(0), Confirmation::First);
    writer.send("hit".to_string());
    assert_eq!(writer.take_confirmed().len(), 1);
    assert_eq!(writer.take_confirmed().len(), 0);
    assert_eq!(writer.take_unconfirmed().len(), 1);
    assert_eq!(writer.take_unconfirmed().len(), 0);
}

#[test]
fn wrappers_give_the_event_they_hold() {
    let mut confirmed = Confirmed(5u32);
    assert_eq!(*confirmed, 5);
    *confirmed = 6;
    assert_eq!(confirmed.0, 6);
    let mut unconfirmed = Unconfirmed("a".to_string());
    unconfirmed.push('b');
    assert_eq!(unconfirmed.len(), 2);
    assert_eq!(RbrbFrame::default(), RbrbFrame(0));
}
