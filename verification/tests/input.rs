use pixm::game::base::types::{Fixed, PlayerId};
use pixm::game::input::collector::InputCollector;
use pixm::game::input::events::InputEvent;

fn move_ev(pid: u8, x: i32) -> InputEvent {
    InputEvent::move_ground(PlayerId(pid), Fixed::from_num(x), Fixed::zero())
}

fn ability_ev(pid: u8, slot: u8) -> InputEvent {
    InputEvent::ability(PlayerId(pid), slot, Fixed::zero(), Fixed::zero(), None)
}

#[test]
fn move_events_coalesce() {
    let mut col = InputCollector::new();
    col.push(move_ev(0, 10));
    col.push(move_ev(0, 20));
    col.push(move_ev(0, 30));

    let drained = col.drain();
    assert_eq!(drained.len(), 1);
    let (x, _) = drained[0].target_pos().unwrap();
    assert_eq!(x, Fixed::from_num(30));
}

#[test]
fn abilities_do_not_coalesce() {
    let mut col = InputCollector::new();
    col.push(ability_ev(0, 0));
    col.push(ability_ev(0, 1));
    assert_eq!(col.drain().len(), 2);
}

#[test]
fn different_players_independent() {
    let mut col = InputCollector::new();
    col.push(move_ev(0, 10));
    col.push(move_ev(1, 20));
    col.push(move_ev(0, 30));

    let drained = col.drain();
    assert_eq!(drained.len(), 2);
}

#[test]
fn drain_clears_buffer() {
    let mut col = InputCollector::new();
    col.push(move_ev(0, 5));
    let _ = col.drain();
    assert!(col.is_empty());
}

#[test]
fn stop_replaces_pending_move_but_keeps_abilities() {
    let mut col = InputCollector::new();
    col.push(move_ev(2, 10));
    col.push(ability_ev(2, 3));
    col.push(InputEvent::Stop { player_id: PlayerId(2) });
    let drained = col.drain();
    assert_eq!(drained.len(), 2);
    assert!(matches!(drained[0], InputEvent::Ability { slot: 3, .. }));
    assert!(matches!(drained[1], InputEvent::Stop { .. }));
}

#[test]
fn input_event_accessors() {
    let ev = InputEvent::attack_move(PlayerId(7), Fixed::from_num(-4), Fixed::from_num(9));
    assert_eq!(ev.player_id(), PlayerId(7));
    assert_eq!(ev.target_pos(), Some((Fixed::from_num(-4), Fixed::from_num(9))));
    let stop = InputEvent::Stop { player_id: PlayerId(1) };
    assert_eq!(stop.target_pos(), None);
    assert_eq!(pixm::game::input::events::fixed_to_bits(Fixed::from_num(1)), 1i64 << 32);
    assert_eq!(pixm::game::input::events::bits_to_fixed(1i64 << 31), Fixed::from_bits(0x8000_0000));
}
