//! Movement systems: click-to-move resolution and position integration.
//!
//! `move_target_system` is path-aware: an entity with a `Path` follows its
//! waypoints, spending up to its speed per tick; an entity without one heads
//! straight for its `MoveTarget`.
use vstd::prelude::*;

use crate::game::base::ecs::{Components, Slot, World, slots_wf};
use crate::game::base::types::{
    Fixed, Vec2Fixed, fx_mul, fx_sub, v_add, v_length, v_length_sq, v_normalize, v_scale, v_sub,
    v_zero,
};
use crate::game::sim::components::{CcKind, CrowdControl, Path, Position, Velocity};

verus! {

/// Root, stun and knockup keep an entity in place.
pub open spec fn is_rooted(cc: Option<CrowdControl>) -> bool {
    match cc {
        Some(c) => c.kind is Root || c.kind is Stun || c.kind is Knockup,
        None => false,
    }
}

/// Walking a path with a distance budget, from `pos` and waypoint `cur`:
/// the final position, waypoint index, velocity, and whether the path ran
/// out. Waypoints within reach are snapped to; the rest of the budget
/// becomes the velocity toward the next waypoint.
pub open spec fn follow(pos: Vec2Fixed, wps: Seq<Vec2Fixed>, cur: int, budget: Fixed) -> (
    Vec2Fixed,
    int,
    Vec2Fixed,
    bool,
)
    decreases wps.len() - cur,
{
    if cur < 0 || cur >= wps.len() {
        (pos, cur, v_zero(), true)
    } else {
        let wp = wps[cur];
        let dir = v_sub(wp, pos);
        let dist = v_length(dir);
        if dist.bits == 0 {
            follow(pos, wps, cur + 1, budget)
        } else if dist.bits <= budget.bits {
            let rest = fx_sub(budget, dist);
            if rest.bits <= 0 {
                (wp, cur + 1, v_zero(), false)
            } else {
                follow(wp, wps, cur + 1, rest)
            }
        } else {
            (pos, cur, v_scale(v_normalize(dir), budget), false)
        }
    }
}

/// Effect of `move_target_system` on one entity.
pub open spec fn move_target_comps(c: Components) -> Components {
    match (c.position, c.velocity, c.move_target, c.move_speed) {
        (Some(pos), Some(_), Some(target), Some(speed)) => if is_rooted(c.crowd_control) {
            Components { velocity: Some(Velocity(v_zero())), ..c }
        } else {
            match c.path {
                Some(p) => {
                    let r = follow(pos.0, p.waypoints@, p.current as int, speed.0);
                    Components {
                        position: Some(Position(r.0)),
                        velocity: Some(Velocity(r.2)),
                        path: if r.3 {
                            None
                        } else {
                            Some(Path { current: r.1 as usize, ..p })
                        },
                        ..c
                    }
                },
                None => {
                    let dir = v_sub(target.0, pos.0);
                    if v_length_sq(dir).bits <= fx_mul(speed.0, speed.0).bits {
                        Components {
                            position: Some(Position(target.0)),
                            velocity: Some(Velocity(v_zero())),
                            ..c
                        }
                    } else {
                        Components {
                            velocity: Some(Velocity(v_scale(v_normalize(dir), speed.0))),
                            ..c
                        }
                    }
                },
            }
        },
        _ => c,
    }
}

/// Effect of `movement_system` on one entity.
pub open spec fn movement_comps(c: Components) -> Components {
    match (c.position, c.velocity) {
        (Some(p), Some(v)) => Components { position: Some(Position(v_add(p.0, v.0))), ..c },
        _ => c,
    }
}

/// Effect of `clear_arrived_targets` on one entity.
pub open spec fn clear_arrived_comps(c: Components) -> Components {
    match (c.velocity, c.move_target) {
        (Some(v), Some(_)) => if v.0 == v_zero() && c.path is None {
            Components { move_target: None, ..c }
        } else {
            c
        },
        _ => c,
    }
}

/// The world with `f` applied to the components of every entity.
pub open spec fn map_comps(s: Seq<Slot>, f: spec_fn(Components) -> Components) -> Seq<Slot> {
    s.map_values(|x: Slot| Slot { entity: x.entity, comps: f(x.comps) })
}

/// Changing only components keeps the world well formed.
pub proof fn lemma_map_comps_wf(s: Seq<Slot>, f: spec_fn(Components) -> Components, next: u32)
    requires
        slots_wf(s, next),
    ensures
        slots_wf(map_comps(s, f), next),
        map_comps(s, f).len() == s.len(),
{
}

fn follow_path(pos: Vec2Fixed, path: &mut Path, budget: Fixed) -> (r: (Vec2Fixed, Vec2Fixed, bool))
    ensures
        follow(pos, old(path).waypoints@, old(path).current as int, budget) == (
            r.0,
            final(path).current as int,
            r.1,
            r.2,
        ),
        final(path).waypoints == old(path).waypoints,
        final(path).destination == old(path).destination,
    decreases old(path).waypoints@.len() - old(path).current,
{
    let wp = match path.current_wp() {
        Some(w) => w,
        None => {
            return (pos, Vec2Fixed::zero(), true);
        },
    };
    let dir = wp - pos;
    let dist = dir.length();
    assert(path.current < path.waypoints.len());
    if dist.bits == 0 {
        path.advance();
        return follow_path(pos, path, budget);
    }
    if dist.bits <= budget.bits {
        let rest = budget - dist;
        path.advance();
        if rest.bits <= 0 {
            return (wp, Vec2Fixed::zero(), false);
        }
        return follow_path(wp, path, rest);
    }
    (pos, dir.normalize() * budget, false)
}

fn rooted(cc: Option<CrowdControl>) -> (r: bool)
    ensures
        r == is_rooted(cc),
{
    match cc {
        Some(c) => match c.kind {
            CcKind::Root | CcKind::Stun | CcKind::Knockup => true,
            _ => false,
        },
        None => false,
    }
}

fn move_target_entity(c: &mut Components)
    ensures
        *final(c) == move_target_comps(*old(c)),
{
    let (pos, target, speed) = match (c.position, c.velocity, c.move_target, c.move_speed) {
        (Some(p), Some(_), Some(t), Some(s)) => (p.0, t.0, s.0),
        _ => {
            return;
        },
    };
    c.velocity = Some(Velocity(Vec2Fixed::zero()));
    if rooted(c.crowd_control) {
        return;
    }
    match c.path.take() {
        Some(mut p) => {
            let ghost p0 = p;
            let (new_pos, vel, exhausted) = follow_path(pos, &mut p, speed);
            c.position = Some(Position(new_pos));
            c.velocity = Some(Velocity(vel));
            if !exhausted {
                c.path = Some(p);
                assert(p == Path { current: p.current, ..p0 });
            }
        },
        None => {
            let dir = target - pos;
            let dist_sq = dir.length_sq();
            let arr_sq = speed * speed;
            if dist_sq.bits <= arr_sq.bits {
                c.position = Some(Position(target));
            } else {
                c.velocity = Some(Velocity(dir.normalize() * speed));
            }
        },
    }
}

fn movement_entity(c: &mut Components)
    ensures
        *final(c) == movement_comps(*old(c)),
{
    match (c.position, c.velocity) {
        (Some(p), Some(v)) => {
            c.position = Some(Position(p.0 + v.0));
        },
        _ => {},
    }
}

fn clear_arrived_entity(c: &mut Components)
    ensures
        *final(c) == clear_arrived_comps(*old(c)),
{
    match (c.velocity, c.move_target) {
        (Some(v), Some(_)) => {
            if v.0 == Vec2Fixed::zero() && c.path.is_none() {
                c.move_target = None;
            }
        },
        _ => {},
    }
}

/// Resolves `MoveTarget` / `Path` into `Velocity`. Rooted, stunned and
/// knocked-up entities stand still; a path that runs out is removed.
pub fn move_target_system(world: &mut World)
    requires
        old(world).wf(),
    ensures
        final(world).wf(),
        final(world).next() == old(world).next(),
        final(world).view() == map_comps(old(world).view(), |c: Components| move_target_comps(c)),
{
    let ghost f = |c: Components| move_target_comps(c);
    let ghost old_slots = world.slots@;
    let mut i: usize = 0;
    while i < world.slots.len()
        invariant
            i <= world.slots@.len(),
            world.slots@.len() == old_slots.len(),
            world.next_id == old(world).next_id,
            slots_wf(old_slots, world.next_id),
            forall|k: int|
                0 <= k < i ==> #[trigger] world.slots@[k] == (Slot {
                    entity: old_slots[k].entity,
                    comps: move_target_comps(old_slots[k].comps),
                }),
            forall|k: int| i <= k < world.slots@.len() ==> #[trigger] world.slots@[k] == old_slots[k],
        decreases world.slots@.len() - i,
    {
        move_target_entity(&mut world.slots[i].comps);
        i = i + 1;
    }
    proof {
        lemma_map_comps_wf(old_slots, f, world.next_id);
        assert(world.slots@ =~= map_comps(old_slots, f));
    }
}

/// Integrates velocity into position (one tick).
pub fn movement_system(world: &mut World)
    requires
        old(world).wf(),
    ensures
        final(world).wf(),
        final(world).next() == old(world).next(),
        final(world).view() == map_comps(old(world).view(), |c: Components| movement_comps(c)),
{
    let ghost f = |c: Components| movement_comps(c);
    let ghost old_slots = world.slots@;
    let mut i: usize = 0;
    while i < world.slots.len()
        invariant
            i <= world.slots@.len(),
            world.slots@.len() == old_slots.len(),
            world.next_id == old(world).next_id,
            slots_wf(old_slots, world.next_id),
            forall|k: int|
                0 <= k < i ==> #[trigger] world.slots@[k] == (Slot {
                    entity: old_slots[k].entity,
                    comps: movement_comps(old_slots[k].comps),
                }),
            forall|k: int| i <= k < world.slots@.len() ==> #[trigger] world.slots@[k] == old_slots[k],
        decreases world.slots@.len() - i,
    {
        movement_entity(&mut world.slots[i].comps);
        i = i + 1;
    }
    proof {
        lemma_map_comps_wf(old_slots, f, world.next_id);
        assert(world.slots@ =~= map_comps(old_slots, f));
    }
}

/// Removes `MoveTarget` from entities that stopped and have no active path
/// (an exhausted path was already removed by `move_target_system`).
pub fn clear_arrived_targets(world: &mut World)
    requires
        old(world).wf(),
    ensures
        final(world).wf(),
        final(world).next() == old(world).next(),
        final(world).view() == map_comps(old(world).view(), |c: Components| clear_arrived_comps(c)),
{
    let ghost f = |c: Components| clear_arrived_comps(c);
    let ghost old_slots = world.slots@;
    let mut i: usize = 0;
    while i < world.slots.len()
        invariant
            i <= world.slots@.len(),
            world.slots@.len() == old_slots.len(),
            world.next_id == old(world).next_id,
            slots_wf(old_slots, world.next_id),
            forall|k: int|
                0 <= k < i ==> #[trigger] world.slots@[k] == (Slot {
                    entity: old_slots[k].entity,
                    comps: clear_arrived_comps(old_slots[k].comps),
                }),
            forall|k: int| i <= k < world.slots@.len() ==> #[trigger] world.slots@[k] == old_slots[k],
        decreases world.slots@.len() - i,
    {
        clear_arrived_entity(&mut world.slots[i].comps);
        i = i + 1;
    }
    proof {
        lemma_map_comps_wf(old_slots, f, world.next_id);
        assert(world.slots@ =~= map_comps(old_slots, f));
    }
}


/// A rooted, stunned or knocked-up entity that is moving stops: its velocity
/// becomes zero and, after the movement system, its position is unchanged.
pub proof fn law_rooted_stays_put(c: Components)
    requires
        c.position is Some,
        c.velocity is Some,
        c.move_target is Some,
        c.move_speed is Some,
        is_rooted(c.crowd_control),
    ensures
        move_target_comps(c).velocity == Some(Velocity(v_zero())),
        movement_comps(move_target_comps(c)).position == c.position,
{
    let p = (c.position->0).0;
    crate::game::base::types::lemma_add_zero(p);
}

} // verus!
