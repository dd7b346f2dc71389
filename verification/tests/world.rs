use pixm::game::base::ecs::World;
use pixm::game::base::types::{Fixed, PlayerId, Vec2Fixed};
use pixm::game::bridge::input_bridge::{on_entity_click, on_stop_key};
use pixm::game::bridge::renderer::{hero_hp, hero_id, position_of, render_positions, spawn_hero};
use pixm::game::input::events::InputEvent;
use pixm::game::sim::components::{MoveTarget, PrevPosition};
use pixm::game::sim::spawn::{spawn_dummy, spawn_minion};
use pixm::game::sim::world::SimWorld;

fn fx(n: i32) -> Fixed {
    Fixed::from_num(n)
}

fn v(x: i32, y: i32) -> Vec2Fixed {
    Vec2Fixed::new(fx(x), fx(y))
}

#[test]
fn new_world_starts_empty() {
    let sim = SimWorld::new(99);
    assert_eq!(sim.tick, 0);
    assert_eq!(sim.rng_state(), 99);
    assert_eq!(sim.world.len(), 0);
    assert_eq!(sim.nav_grid.width(), 128);
    // FNV-1a of no bytes is the offset basis
    assert_eq!(sim.checksum(), 0xcbf29ce484222325);
}

#[test]
fn move_input_moves_the_players_hero() {
    let mut sim = SimWorld::new(1);
    let hero = spawn_hero(&mut sim.world, v(10, 10));
    let other = spawn_dummy(&mut sim.world, v(50, 50), 1);

    let input = InputEvent::move_ground(PlayerId(0), fx(40), fx(10));
    sim.run_tick(&[input]);

    assert_eq!(sim.tick, 1);
    let c = sim.world.get(hero).unwrap();
    assert_eq!(c.move_target, Some(MoveTarget(v(40, 10))));
    let p = c.position.unwrap().0;
    assert!(p.x.to_bits() > fx(10).to_bits() && p.x.to_bits() < fx(40).to_bits());
    assert_eq!(p.y, fx(10));
    // the dummy belongs to nobody and stays
    assert_eq!(sim.world.get(other).unwrap().position.unwrap().0, v(50, 50));
}

#[test]
fn inputs_of_other_players_are_ignored() {
    let mut sim = SimWorld::new(1);
    let hero = spawn_hero(&mut sim.world, v(10, 10));
    sim.run_tick(&[InputEvent::move_ground(PlayerId(3), fx(40), fx(10))]);
    let c = sim.world.get(hero).unwrap();
    assert_eq!(c.move_target, None);
    assert_eq!(c.position.unwrap().0, v(10, 10));
}

#[test]
fn checksum_tracks_position_and_health() {
    let mut a = SimWorld::new(5);
    let mut b = SimWorld::new(5);
    spawn_dummy(&mut a.world, v(1, 2), 0);
    spawn_dummy(&mut b.world, v(1, 2), 0);
    assert_eq!(a.checksum(), b.checksum());
    let mut c = SimWorld::new(5);
    spawn_dummy(&mut c.world, v(2, 2), 0);
    assert_ne!(a.checksum(), c.checksum());
    // y is not part of the checksum
    let mut d = SimWorld::new(5);
    spawn_dummy(&mut d.world, v(1, 9), 0);
    assert_eq!(a.checksum(), d.checksum());
}

#[test]
fn snapshot_restores_tick_and_rng() {
    let mut sim = SimWorld::new(777);
    spawn_dummy(&mut sim.world, v(3, 4), 1);
    sim.run_tick(&[]);
    sim.run_tick(&[]);
    let bytes = sim.serialize();
    // tick, rng state, then id, x, y, hp, max hp of the dummy
    assert_eq!(bytes.len(), 16 + 28);
    assert_eq!(&bytes[0..8], &2u64.to_le_bytes());
    assert_eq!(&bytes[8..16], &sim.rng_state().to_le_bytes());
    assert_eq!(&bytes[16..20], &0u32.to_le_bytes());
    assert_eq!(&bytes[20..28], &fx(3).to_bits().to_le_bytes());
    assert_eq!(&bytes[36..40], &500i32.to_le_bytes());

    let restored = SimWorld::deserialize(&bytes);
    assert_eq!(restored.tick, 2);
    assert_eq!(restored.rng_state(), sim.rng_state());
    let copy = sim.clone();
    assert_eq!(copy.tick, 2);
    assert_eq!(copy.rng_state(), sim.rng_state());
    // a short snapshot gives a fresh world
    let fresh = SimWorld::deserialize(&bytes[..10]);
    assert_eq!(fresh.tick, 0);
    assert_eq!(fresh.rng_state(), 0);
}

#[test]
fn spawned_entities_have_their_kits() {
    let mut world = World::new();
    let d = spawn_dummy(&mut world, v(1, 1), 1);
    let m = spawn_minion(&mut world, v(2, 2), 0, 1);
    let dc = world.get(d).unwrap();
    assert_eq!(dc.health.unwrap().max, 500);
    assert_eq!(dc.prev_position, Some(PrevPosition(v(1, 1))));
    assert!(dc.move_speed.is_none());
    let mc = world.get(m).unwrap();
    assert_eq!(mc.health.unwrap().max, 200);
    assert_eq!(mc.move_speed.unwrap().0, Fixed::from_bits(0x1_8000_0000));
    assert_eq!(mc.lane_id.unwrap().0, 1);
    assert_eq!(mc.team.unwrap().0, 0);
}

#[test]
fn renderer_reads_hero_and_positions() {
    let mut world = World::new();
    assert_eq!(hero_id(&world), None);
    assert_eq!(hero_hp(&world), None);
    let dummy = spawn_dummy(&mut world, v(0, 0), 1);
    let hero = spawn_hero(&mut world, v(10, 20));
    assert_eq!(hero_id(&world), Some(hero.id()));
    let (cur, max) = hero_hp(&world).unwrap();
    assert_eq!(cur, max);

    // previous position (0, 0), current (10, 20): alpha 1/2 gives (5, 10)
    let mut c = world.get(hero).unwrap().clone();
    c.prev_position = Some(PrevPosition(v(0, 0)));
    assert!(world.set(hero, c));
    let positions = render_positions(&world, Fixed::from_bits(0x8000_0000));
    assert_eq!(positions.len(), 2);
    assert_eq!(position_of(&positions, hero.id()), Some(v(5, 10)));
    assert_eq!(position_of(&positions, dummy.id()), Some(v(0, 0)));
    assert_eq!(position_of(&positions, 99), None);
}

#[test]
fn bridge_inputs() {
    assert_eq!(
        on_entity_click(2, 17),
        InputEvent::MoveAttack { player_id: PlayerId(2), target_entity: 17 }
    );
    assert_eq!(on_stop_key(1), InputEvent::Stop { player_id: PlayerId(1) });
}

#[test]
fn tick_bounds_are_checked_before_a_tick() {
    let mut sim = SimWorld::new(3);
    let hero = spawn_hero(&mut sim.world, v(10, 10));
    spawn_dummy(&mut sim.world, v(12, 10), 1);
    let input = InputEvent::move_ground(PlayerId(0), fx(40), fx(10));
    assert!(sim.tick_fits(&[input]));
    sim.run_tick(&[input]);
    let mut c = sim.world.get(hero).unwrap().clone();
    let mut h = c.health.unwrap();
    h.current = -1;
    c.health = Some(h);
    assert!(sim.world.set(hero, c));
    assert!(!sim.tick_fits(&[]));
}
