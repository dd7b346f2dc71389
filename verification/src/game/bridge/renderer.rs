//! What the render loop reads from the simulation each frame: interpolated
//! positions, the local hero and its health. Scaling to pixels and moving
//! engine nodes happen in the front end.
use vstd::prelude::*;

use crate::game::base::ecs::{Components, Entity, Slot, World, no_components};
use crate::game::base::types::{Fixed, PlayerId, Vec2Fixed, v_lerp, v_zero};
use crate::game::sim::components::{
    AbilityCooldowns, AbilitySlots, Health, MoveSpeed, Owner, Position, PrevPosition, Team,
    Velocity,
};

verus! {

/// Position of every entity that has one, interpolated between its previous
/// and current position by `alpha` (a missing previous position counts as
/// the current one), in entity order.
pub open spec fn render_list(s: Seq<Slot>, alpha: Fixed) -> Seq<(u32, Vec2Fixed)>
    decreases s.len(),
{
    if s.len() == 0 {
        Seq::empty()
    } else {
        let prev = render_list(s.drop_last(), alpha);
        let c = s.last().comps;
        match c.position {
            Some(p) => {
                let from = match c.prev_position {
                    Some(pp) => pp.0,
                    None => p.0,
                };
                prev.push((s.last().entity.id, v_lerp(from, p.0, alpha)))
            },
            None => prev,
        }
    }
}

/// Interpolated positions of all entities, for a frame at `alpha` between
/// two ticks.
pub fn render_positions(world: &World, alpha: Fixed) -> (r: Vec<(u32, Vec2Fixed)>)
    ensures
        r@ == render_list(world.view(), alpha),
{
    let mut out: Vec<(u32, Vec2Fixed)> = Vec::new();
    let mut i: usize = 0;
    while i < world.slots.len()
        invariant
            i <= world.slots@.len(),
            out@ == render_list(world.slots@.subrange(0, i as int), alpha),
        decreases world.slots@.len() - i,
    {
        let slot = &world.slots[i];
        proof {
            let pre = world.slots@.subrange(0, i + 1);
            assert(pre.drop_last() =~= world.slots@.subrange(0, i as int));
        }
        match slot.comps.position {
            Some(p) => {
                let from = match slot.comps.prev_position {
                    Some(pp) => pp.0,
                    None => p.0,
                };
                out.push((slot.entity.id, from.lerp(p.0, alpha)));
            },
            None => {},
        }
        i = i + 1;
    }
    proof {
        assert(world.slots@.subrange(0, world.slots@.len() as int) =~= world.slots@);
    }
    out
}

/// The entity is controlled by the local player (player 0).
pub open spec fn is_hero(c: Components) -> bool {
    c.owner == Some(Owner(PlayerId(0)))
}

/// Id of the first entity controlled by the local player.
pub fn hero_id(world: &World) -> (r: Option<u32>)
    ensures
        r matches Some(id) ==> exists|i: int|
            0 <= i < world.view().len() && world.view()[i].entity.id == id && is_hero(
                world.view()[i].comps,
            ) && forall|j: int| 0 <= j < i ==> !is_hero(#[trigger] world.view()[j].comps),
        r is None ==> forall|j: int|
            0 <= j < world.view().len() ==> !is_hero(#[trigger] world.view()[j].comps),
{
    let mut i: usize = 0;
    while i < world.slots.len()
        invariant
            i <= world.slots@.len(),
            forall|j: int| 0 <= j < i ==> !is_hero(#[trigger] world.slots@[j].comps),
        decreases world.slots@.len() - i,
    {
        if world.slots[i].comps.owner == Some(Owner(PlayerId(0))) {
            return Some(world.slots[i].entity.id);
        }
        i = i + 1;
    }
    None
}

/// Interpolated position of entity `id` in a render list.
pub fn position_of(positions: &Vec<(u32, Vec2Fixed)>, id: u32) -> (r: Option<Vec2Fixed>)
    ensures
        r matches Some(p) ==> exists|i: int|
            0 <= i < positions@.len() && positions@[i] == (id, p) && forall|j: int|
                0 <= j < i ==> (#[trigger] positions@[j]).0 != id,
        r is None ==> forall|j: int| 0 <= j < positions@.len() ==> (#[trigger] positions@[j]).0 != id,
{
    let mut i: usize = 0;
    while i < positions.len()
        invariant
            i <= positions@.len(),
            forall|j: int| 0 <= j < i ==> (#[trigger] positions@[j]).0 != id,
        decreases positions@.len() - i,
    {
        if positions[i].0 == id {
            return Some(positions[i].1);
        }
        i = i + 1;
    }
    None
}

/// Current and maximum health of the first entity of the local player that
/// has health.
pub fn hero_hp(world: &World) -> (r: Option<(i32, i32)>)
    ensures
        r matches Some(hp) ==> exists|i: int|
            0 <= i < world.view().len() && is_hero(world.view()[i].comps)
                && world.view()[i].comps.health == Some(Health { current: hp.0, max: hp.1 })
                && forall|j: int|
                0 <= j < i ==> !(is_hero(#[trigger] world.view()[j].comps)
                    && world.view()[j].comps.health is Some),
        r is None ==> forall|j: int|
            0 <= j < world.view().len() ==> !(is_hero(#[trigger] world.view()[j].comps)
                && world.view()[j].comps.health is Some),
{
    let mut i: usize = 0;
    while i < world.slots.len()
        invariant
            i <= world.slots@.len(),
            forall|j: int|
                0 <= j < i ==> !(is_hero(#[trigger] world.slots@[j].comps)
                    && world.slots@[j].comps.health is Some),
        decreases world.slots@.len() - i,
    {
        let c = &world.slots[i].comps;
        if c.owner == Some(Owner(PlayerId(0))) {
            match c.health {
                Some(h) => {
                    return Some((h.current, h.max));
                },
                None => {},
            }
        }
        i = i + 1;
    }
    None
}

/// Components of the local player's hero.
pub open spec fn hero_comps(pos: Vec2Fixed) -> Components {
    Components {
        position: Some(Position(pos)),
        prev_position: Some(PrevPosition(pos)),
        velocity: Some(Velocity(v_zero())),
        move_speed: Some(MoveSpeed(Fixed { bits: 0x3_0000_0000 })),
        owner: Some(Owner(PlayerId(0))),
        health: Some(Health { current: 500, max: 500 }),
        team: Some(Team(0)),
        ability_slots: Some(AbilitySlots([None, None, None, None])),
        ability_cooldowns: Some(AbilityCooldowns([0, 0, 0, 0])),
        ..no_components()
    }
}

/// Spawns the local player's hero at `pos`.
pub fn spawn_hero(world: &mut World, pos: Vec2Fixed) -> (e: Entity)
    requires
        old(world).wf(),
        old(world).next() < u32::MAX,
    ensures
        final(world).wf(),
        e.id == old(world).next(),
        final(world).next() == old(world).next() + 1,
        final(world).view() == old(world).view().push(Slot { entity: e, comps: hero_comps(pos) }),
{
    let mut c = Components::empty();
    c.position = Some(Position(pos));
    c.prev_position = Some(PrevPosition(pos));
    c.velocity = Some(Velocity::default());
    c.move_speed = Some(MoveSpeed(Fixed::from_num(3)));
    c.owner = Some(Owner(PlayerId(0)));
    c.health = Some(Health::new(500));
    c.team = Some(Team(0));
    c.ability_slots = Some(AbilitySlots([None, None, None, None]));
    c.ability_cooldowns = Some(AbilityCooldowns([0, 0, 0, 0]));
    world.spawn(c)
}

} // verus!
