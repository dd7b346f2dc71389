//! Projectile system: collision and homing.
//!
//! A skillshot flies at the velocity it was spawned with; it hits the closest
//! enemy within the hit radius and disappears at its endpoint. A homing
//! projectile turns toward its target every tick until it hits it or the
//! target is gone. Runs after movement, before health.
use vstd::prelude::*;

use crate::game::base::ecs::{
    Components, Entity, Slot, World, comps_of, lemma_absent, lemma_at_index, no_components,
    slots_wf,
};
use crate::game::base::events::{DamageEvent, EventBus};
use crate::game::base::types::{Fixed, Vec2Fixed, v_dist_sq, v_normalize, v_scale, v_sub};
use crate::game::sim::components::{Dying, Projectile, ProjectileTarget, Velocity};

verus! {

/// Collision radius, squared: 20 units.
pub const HIT_R_SQ: i64 = 400;

pub open spec fn hit_radius_sq() -> Fixed {
    Fixed { bits: 0x190_0000_0000i64 }
}

/// A living potential victim: entity, position, team.
pub type LiveTarget = (Entity, Vec2Fixed, u8);

/// Entities with position, team and positive health, in entity order.
pub open spec fn live_targets(s: Seq<Slot>) -> Seq<LiveTarget>
    decreases s.len(),
{
    if s.len() == 0 {
        Seq::empty()
    } else {
        let prev = live_targets(s.drop_last());
        let c = s.last().comps;
        match (c.position, c.team, c.health) {
            (Some(p), Some(t), Some(h)) => if h.current > 0 {
                prev.push((s.last().entity, p.0, t.0))
            } else {
                prev
            },
            _ => prev,
        }
    }
}

/// A target a skillshot at `pos` collides with.
pub open spec fn collides(t: LiveTarget, owner: Entity, owner_team: u8, pos: Vec2Fixed) -> bool {
    t.0 != owner && t.2 != owner_team && v_dist_sq(pos, t.1).bits <= hit_radius_sq().bits
}

/// Closer first, then lower entity id.
pub open spec fn closer(a: LiveTarget, b: LiveTarget, pos: Vec2Fixed) -> bool {
    let da = v_dist_sq(pos, a.1).bits;
    let db = v_dist_sq(pos, b.1).bits;
    da < db || (da == db && a.0.id < b.0.id)
}

/// The closest colliding target among the first `n`.
pub open spec fn first_collision(
    live: Seq<LiveTarget>,
    n: int,
    owner: Entity,
    owner_team: u8,
    pos: Vec2Fixed,
) -> Option<LiveTarget>
    decreases n,
{
    if n <= 0 {
        None
    } else {
        let prev = first_collision(live, n - 1, owner, owner_team, pos);
        let t = live[n - 1];
        if collides(t, owner, owner_team, pos) && (prev is None || closer(t, prev->0, pos)) {
            Some(t)
        } else {
            prev
        }
    }
}

/// Team of `e`, 255 when it has none or is gone.
pub open spec fn team_or_none(s: Seq<Slot>, e: Entity) -> u8 {
    match comps_of(s, e) {
        Some(c) => match c.team {
            Some(t) => t.0,
            None => 255,
        },
        None => 255,
    }
}

/// What happens to one projectile: the damage it deals, whether it is
/// spent, and its new homing velocity.
pub type ProjDecision = (Option<DamageEvent>, bool, Option<Vec2Fixed>);

pub open spec fn proj_decision(s: Seq<Slot>, live: Seq<LiveTarget>, pos: Vec2Fixed, proj: Projectile) -> ProjDecision {
    let owner_team = team_or_none(s, proj.owner);
    match proj.target {
        ProjectileTarget::Point(endpoint) => match first_collision(
            live,
            live.len() as int,
            proj.owner,
            owner_team,
            pos,
        ) {
            Some(t) => (
                Some(DamageEvent { source: proj.owner, target: t.0, amount: proj.damage }),
                true,
                None,
            ),
            None => (None, v_dist_sq(pos, endpoint).bits <= hit_radius_sq().bits, None),
        },
        ProjectileTarget::Entity(te) => match comps_of(s, te) {
            None => (None, true, None),
            Some(tc) => match tc.position {
                None => (None, true, None),
                Some(tp) => if tc.dying is Some {
                    (None, true, None)
                } else if v_dist_sq(pos, tp.0).bits <= hit_radius_sq().bits {
                    (
                        Some(DamageEvent { source: proj.owner, target: te, amount: proj.damage }),
                        true,
                        None,
                    )
                } else {
                    (None, false, Some(v_scale(v_normalize(v_sub(tp.0, pos)), proj.speed)))
                },
            },
        },
    }
}

/// Decision for one slot (`None` for entities that are not projectiles).
pub open spec fn slot_decision(s: Seq<Slot>, live: Seq<LiveTarget>, x: Slot) -> Option<ProjDecision> {
    match (x.comps.position, x.comps.projectile) {
        (Some(p), Some(pr)) => Some(proj_decision(s, live, p.0, pr)),
        _ => None,
    }
}

/// A projectile slot after its decision is applied.
pub open spec fn apply_decision(x: Slot, d: Option<ProjDecision>) -> Slot {
    match d {
        Some(d) => Slot {
            entity: x.entity,
            comps: Components {
                velocity: match (d.2, x.comps.velocity) {
                    (Some(v), Some(_)) => Some(Velocity(v)),
                    _ => x.comps.velocity,
                },
                dying: if d.1 { Some(Dying) } else { x.comps.dying },
                ..x.comps
            },
        },
        None => x,
    }
}

/// The damage emitted by the projectiles among the first `n` slots, in
/// entity order.
pub open spec fn projectile_damage(s: Seq<Slot>, live: Seq<LiveTarget>, n: int) -> Seq<DamageEvent>
    decreases n,
{
    if n <= 0 {
        Seq::empty()
    } else {
        let prev = projectile_damage(s, live, n - 1);
        match slot_decision(s, live, s[n - 1]) {
            Some(d) => match d.0 {
                Some(ev) => prev.push(ev),
                None => prev,
            },
            None => prev,
        }
    }
}

fn collect_live(world: &World) -> (r: Vec<LiveTarget>)
    ensures
        r@ == live_targets(world.view()),
{
    let mut out: Vec<LiveTarget> = Vec::new();
    let mut i: usize = 0;
    while i < world.slots.len()
        invariant
            i <= world.slots@.len(),
            out@ == live_targets(world.slots@.take(i as int)),
        decreases world.slots@.len() - i,
    {
        proof {
            assert(world.slots@.take(i + 1).drop_last() =~= world.slots@.take(i as int));
        }
        let c = &world.slots[i].comps;
        match (c.position, c.team, c.health) {
            (Some(p), Some(t), Some(h)) => {
                if !h.is_dead() {
                    out.push((world.slots[i].entity, p.0, t.0));
                }
            },
            _ => {},
        }
        i = i + 1;
    }
    proof {
        assert(world.slots@.take(world.slots@.len() as int) =~= world.slots@);
    }
    out
}

fn team_of(world: &World, e: Entity) -> (r: u8)
    requires
        world.wf(),
    ensures
        r == team_or_none(world.view(), e),
{
    match world.find(e) {
        Some(i) => {
            proof {
                lemma_at_index(world.view(), world.next_id, i as int, world.slots@[i as int].comps);
            }
            match world.slots[i].comps.team {
                Some(t) => t.0,
                None => 255,
            }
        },
        None => {
            proof {
                lemma_absent(world.view(), e, no_components());
            }
            255
        },
    }
}

fn decide(world: &World, live: &Vec<LiveTarget>, pos: Vec2Fixed, proj: Projectile) -> (r: ProjDecision)
    requires
        world.wf(),
    ensures
        r == proj_decision(world.view(), live@, pos, proj),
{
    let owner_team = team_of(world, proj.owner);
    let hr_sq = Fixed::from_num(HIT_R_SQ as i32);
    match proj.target {
        ProjectileTarget::Point(endpoint) => {
            let mut best: Option<LiveTarget> = None;
            let mut j: usize = 0;
            while j < live.len()
                invariant
                    j <= live@.len(),
                    hr_sq == hit_radius_sq(),
                    best == first_collision(live@, j as int, proj.owner, owner_team, pos),
                decreases live@.len() - j,
            {
                let t = live[j];
                if t.0 != proj.owner && t.2 != owner_team && pos.dist_sq(t.1).bits <= hr_sq.bits {
                    let better = match best {
                        None => true,
                        Some(b) => {
                            let dt = pos.dist_sq(t.1).bits;
                            let db = pos.dist_sq(b.1).bits;
                            dt < db || (dt == db && t.0.id < b.0.id)
                        },
                    };
                    if better {
                        best = Some(t);
                    }
                }
                j = j + 1;
            }
            match best {
                Some(t) => (
                    Some(DamageEvent { source: proj.owner, target: t.0, amount: proj.damage }),
                    true,
                    None,
                ),
                None => (None, pos.dist_sq(endpoint).bits <= hr_sq.bits, None),
            }
        },
        ProjectileTarget::Entity(te) => {
            match world.find(te) {
                None => {
                    proof {
                        lemma_absent(world.view(), te, no_components());
                    }
                    (None, true, None)
                },
                Some(k) => {
                    proof {
                        lemma_at_index(world.view(), world.next_id, k as int, world.slots@[k as int].comps);
                    }
                    match world.slots[k].comps.position {
                        None => (None, true, None),
                        Some(tp) => {
                            if world.slots[k].comps.dying.is_some() {
                                (None, true, None)
                            } else if pos.dist_sq(tp.0).bits <= hr_sq.bits {
                                (
                                    Some(DamageEvent { source: proj.owner, target: te, amount: proj.damage }),
                                    true,
                                    None,
                                )
                            } else {
                                (None, false, Some((tp.0 - pos).normalize() * proj.speed))
                            }
                        },
                    }
                },
            }
        },
    }
}

/// Moves projectiles' collisions forward one tick: damage for hits, `Dying`
/// for spent projectiles, a new velocity for homing ones still in flight.
/// Every decision is taken on the world as it stood when the pass began.
pub fn projectile_system(world: &mut World, events: &mut EventBus)
    requires
        old(world).wf(),
    ensures
        final(world).wf(),
        final(world).next() == old(world).next(),
        final(world).view() == old(world).view().map_values(
            |x: Slot|
                apply_decision(
                    x,
                    slot_decision(old(world).view(), live_targets(old(world).view()), x),
                ),
        ),
        final(events).damage.view() == old(events).damage.view() + projectile_damage(
            old(world).view(),
            live_targets(old(world).view()),
            old(world).view().len() as int,
        ),
        final(events).deaths == old(events).deaths,
        final(events).buffs == old(events).buffs,
        final(events).abilities == old(events).abilities,
{
    let live = collect_live(world);
    let ghost s0 = world.slots@;
    let ghost lv = live@;
    let ghost d0 = events.damage.view();
    let mut decisions: Vec<Option<ProjDecision>> = Vec::new();
    let mut i: usize = 0;
    while i < world.slots.len()
        invariant
            i <= world.slots@.len(),
            world.slots@ == s0,
            world.wf(),
            lv == live@,
            decisions@.len() == i,
            forall|k: int| 0 <= k < i ==> #[trigger] decisions@[k] == slot_decision(s0, lv, s0[k]),
            events.damage.view() == d0 + projectile_damage(s0, lv, i as int),
            events.deaths == old(events).deaths,
            events.buffs == old(events).buffs,
            events.abilities == old(events).abilities,
        decreases world.slots@.len() - i,
    {
        let d = match (world.slots[i].comps.position, world.slots[i].comps.projectile) {
            (Some(p), Some(pr)) => Some(decide(world, &live, p.0, pr)),
            _ => None,
        };
        match d {
            Some(dd) => match dd.0 {
                Some(ev) => {
                    events.damage.emit(ev);
                },
                None => {},
            },
            None => {},
        }
        decisions.push(d);
        i = i + 1;
    }
    let mut k: usize = 0;
    while k < world.slots.len()
        invariant
            k <= world.slots@.len(),
            world.slots@.len() == s0.len(),
            world.next_id == old(world).next_id,
            slots_wf(s0, world.next_id),
            decisions@.len() == s0.len(),
            forall|m: int| 0 <= m < s0.len() ==> #[trigger] decisions@[m] == slot_decision(s0, lv, s0[m]),
            forall|m: int| 0 <= m < k ==> #[trigger] world.slots@[m] == apply_decision(s0[m], decisions@[m]),
            forall|m: int| k <= m < s0.len() ==> #[trigger] world.slots@[m] == s0[m],
        decreases world.slots@.len() - k,
    {
        match decisions[k] {
            Some(d) => {
                match (d.2, world.slots[k].comps.velocity) {
                    (Some(v), Some(_)) => {
                        world.slots[k].comps.velocity = Some(Velocity(v));
                    },
                    _ => {},
                }
                if d.1 {
                    world.slots[k].comps.dying = Some(Dying);
                }
            },
            None => {},
        }
        k = k + 1;
    }
    proof {
        assert(world.slots@ =~= s0.map_values(|x: Slot| apply_decision(x, slot_decision(s0, lv, x))));
        assert forall|a: int, b: int| 0 <= a < b < world.slots@.len() implies world.slots@[a].entity.id
            < world.slots@[b].entity.id by {
            assert(world.slots@[a].entity == s0[a].entity);
            assert(world.slots@[b].entity == s0[b].entity);
        }
        assert forall|a: int| 0 <= a < world.slots@.len() implies world.slots@[a].entity.id
            < world.next_id by {
            assert(world.slots@[a].entity == s0[a].entity);
        }
    }
}


/// `first_collision` gives a colliding target no farther than any other
/// colliding one, and of those as near, the one with the lowest id; it gives
/// nothing exactly when none collides.
pub proof fn law_first_collision_is_closest(
    live: Seq<LiveTarget>,
    n: int,
    owner: Entity,
    owner_team: u8,
    pos: Vec2Fixed,
)
    requires
        0 <= n <= live.len(),
    ensures
        ({
            let r = first_collision(live, n, owner, owner_team, pos);
            &&& r is None <==> forall|j: int|
                0 <= j < n ==> !collides(#[trigger] live[j], owner, owner_team, pos)
            &&& r matches Some(t) ==> {
                &&& exists|i: int| 0 <= i < n && live[i] == t
                &&& collides(t, owner, owner_team, pos)
                &&& forall|j: int|
                    0 <= j < n && collides(#[trigger] live[j], owner, owner_team, pos) ==> {
                        let dt = v_dist_sq(pos, t.1).bits;
                        let dj = v_dist_sq(pos, live[j].1).bits;
                        dt < dj || (dt == dj && t.0.id <= live[j].0.id)
                    }
            }
        }),
    decreases n,
{
    if n > 0 {
        law_first_collision_is_closest(live, n - 1, owner, owner_team, pos);
        let prev = first_collision(live, n - 1, owner, owner_team, pos);
        let r = first_collision(live, n, owner, owner_team, pos);
        if r is Some && r == prev {
            let p = prev->0;
            let i = choose|i: int| 0 <= i < n - 1 && live[i] == p;
            assert(live[i] == p);
        }
        if r is Some && r != prev {
            assert(live[n - 1] == r->0);
        }
    }
}

/// A skillshot deals at most one hit, from its owner for its damage, and is
/// spent when it hits; it never hits its owner or the owner's team, and it
/// hits the nearest living enemy within 20 units (ties to the lowest id).
pub proof fn law_skillshot_hits_nearest_enemy(
    s: Seq<Slot>,
    live: Seq<LiveTarget>,
    pos: Vec2Fixed,
    proj: Projectile,
)
    requires
        proj.target is Point,
    ensures
        ({
            let d = proj_decision(s, live, pos, proj);
            let team = team_or_none(s, proj.owner);
            d.0 matches Some(ev) ==> {
                &&& d.1
                &&& ev.source == proj.owner
                &&& ev.amount == proj.damage
                &&& exists|i: int|
                    0 <= i < live.len() && live[i].0 == ev.target && #[trigger] collides(
                        live[i],
                        proj.owner,
                        team,
                        pos,
                    ) && live[i].0 != proj.owner && live[i].2 != team && forall|j: int|
                        0 <= j < live.len() && collides(#[trigger] live[j], proj.owner, team, pos)
                            ==> {
                            let di = v_dist_sq(pos, live[i].1).bits;
                            let dj = v_dist_sq(pos, live[j].1).bits;
                            di < dj || (di == dj && live[i].0.id <= live[j].0.id)
                        }
            }
        }),
{
    let team = team_or_none(s, proj.owner);
    law_first_collision_is_closest(live, live.len() as int, proj.owner, team, pos);
    let r = first_collision(live, live.len() as int, proj.owner, team, pos);
    if r is Some {
        let t = r->0;
        let i = choose|i: int| 0 <= i < live.len() && live[i] == t;
        assert(live[i] == t);
        assert(collides(live[i], proj.owner, team, pos));
    }
}

} // verus!
