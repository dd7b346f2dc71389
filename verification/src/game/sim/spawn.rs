//! Spawn helpers: build composite entities for tests and for the game. No
//! game logic here, only composition of components.
use vstd::prelude::*;

use crate::game::base::ecs::{Components, Entity, Slot, World, no_components};
use crate::game::base::types::{Fixed, Vec2Fixed, v_zero};
use crate::game::sim::components::{
    AttackCooldown, AttackDamage, AttackRange, AttackSpeed, Health, LaneId, MoveSpeed, Position,
    PrevPosition, Team, Velocity, WaypointIndex,
};

verus! {

/// Components of a static training dummy: position, health, team.
pub open spec fn dummy_comps(pos: Vec2Fixed, team: u8) -> Components {
    Components {
        position: Some(Position(pos)),
        prev_position: Some(PrevPosition(pos)),
        health: Some(Health { current: 500, max: 500 }),
        team: Some(Team(team)),
        ..no_components()
    }
}

/// Components of a lane minion: movement, combat and waypoints.
pub open spec fn minion_comps(pos: Vec2Fixed, team: u8, lane_id: u8) -> Components {
    Components {
        position: Some(Position(pos)),
        prev_position: Some(PrevPosition(pos)),
        velocity: Some(Velocity(v_zero())),
        move_speed: Some(MoveSpeed(Fixed { bits: 0x1_8000_0000 })),
        health: Some(Health { current: 200, max: 200 }),
        team: Some(Team(team)),
        attack_range: Some(AttackRange(Fixed { bits: 0x5_0000_0000 })),
        attack_damage: Some(AttackDamage(15)),
        attack_speed: Some(AttackSpeed(90)),
        attack_cooldown: Some(AttackCooldown(0)),
        waypoint_index: Some(WaypointIndex(0)),
        lane_id: Some(LaneId(lane_id)),
        ..no_components()
    }
}

/// Static target dummy: health and team, no movement.
pub fn spawn_dummy(world: &mut World, pos: Vec2Fixed, team: u8) -> (e: Entity)
    requires
        old(world).wf(),
        old(world).next() < u32::MAX,
    ensures
        final(world).wf(),
        e.id == old(world).next(),
        final(world).next() == old(world).next() + 1,
        final(world).view() == old(world).view().push(Slot { entity: e, comps: dummy_comps(pos, team) }),
{
    let mut c = Components::empty();
    c.position = Some(Position(pos));
    c.prev_position = Some(PrevPosition(pos));
    c.health = Some(Health::new(500));
    c.team = Some(Team(team));
    world.spawn(c)
}

/// Lane minion with AI: movement speed 1.5, 200 health, melee attack.
pub fn spawn_minion(world: &mut World, pos: Vec2Fixed, team: u8, lane_id: u8) -> (e: Entity)
    requires
        old(world).wf(),
        old(world).next() < u32::MAX,
    ensures
        final(world).wf(),
        e.id == old(world).next(),
        final(world).next() == old(world).next() + 1,
        final(world).view() == old(world).view().push(
            Slot { entity: e, comps: minion_comps(pos, team, lane_id) },
        ),
{
    let mut c = Components::empty();
    c.position = Some(Position(pos));
    c.prev_position = Some(PrevPosition(pos));
    c.velocity = Some(Velocity::default());
    c.move_speed = Some(MoveSpeed(Fixed::from_bits(0x1_8000_0000)));
    c.health = Some(Health::new(200));
    c.team = Some(Team(team));
    c.attack_range = Some(AttackRange(Fixed::from_num(5)));
    c.attack_damage = Some(AttackDamage(15));
    c.attack_speed = Some(AttackSpeed(90));
    c.attack_cooldown = Some(AttackCooldown(0));
    c.waypoint_index = Some(WaypointIndex(0));
    c.lane_id = Some(LaneId(lane_id));
    world.spawn(c)
}

} // verus!
