//! Ability system: turns `PendingAbility` into effects.
//!
//! Flow: an ability input becomes a `PendingAbility` component, which this
//! system consumes to emit damage, apply crowd control, dash or spawn a
//! projectile.
use vstd::prelude::*;

use crate::game::base::ecs::{
    Components, Entity, Slot, World, comps_of, has_entity, lemma_absent, lemma_at_index,
    no_components, set_comps, slots_wf,
};
use crate::game::base::events::{AbilityEvent, DamageEvent, EventBus};
use crate::game::base::types::{
    Fixed, Vec2Fixed, fx_mul, v_add, v_dist_sq, v_normalize, v_scale, v_sub,
};
use crate::game::sim::components::{
    AbilityCooldowns, AbilityEffect, CcKind, CrowdControl, PendingAbility, Position, Projectile,
    ProjectileTarget, Velocity,
};
use crate::game::sim::systems::movement::{lemma_map_comps_wf, map_comps};

verus! {

broadcast use vstd::array::group_array_axioms;

// ─── Cooldowns ──────────────────────────────────────────────────────────────
pub open spec fn tick_down(v: u32) -> u32 {
    if v > 0 { (v - 1) as u32 } else { v }
}

pub open spec fn ability_cooldown_comps(c: Components) -> Components {
    match c.ability_cooldowns {
        Some(cds) => Components {
            ability_cooldowns: Some(
                AbilityCooldowns(
                    [
                        tick_down(cds.0[0]),
                        tick_down(cds.0[1]),
                        tick_down(cds.0[2]),
                        tick_down(cds.0[3]),
                    ],
                ),
            ),
            ..c
        },
        None => c,
    }
}

fn down(v: u32) -> (r: u32)
    ensures
        r == tick_down(v),
{
    if v > 0 { v - 1 } else { v }
}

fn ability_cooldown_entity(c: &mut Components)
    ensures
        *final(c) == ability_cooldown_comps(*old(c)),
{
    match c.ability_cooldowns {
        Some(cds) => {
            c.ability_cooldowns = Some(
                AbilityCooldowns([down(cds.0[0]), down(cds.0[1]), down(cds.0[2]), down(cds.0[3])]),
            );
        },
        None => {},
    }
}

/// Counts every ability cooldown down by one tick.
pub fn ability_cooldown_system(world: &mut World)
    requires
        old(world).wf(),
    ensures
        final(world).wf(),
        final(world).next() == old(world).next(),
        final(world).view() == map_comps(
            old(world).view(),
            |c: Components| ability_cooldown_comps(c),
        ),
{
    let ghost old_slots = world.slots@;
    let mut i: usize = 0;
    while i < world.slots.len()
        invariant
            i <= world.slots@.len(),
            world.slots@.len() == old_slots.len(),
            world.next_id == old(world).next_id,
            slots_wf(old_slots, world.next_id),
            forall|k: int|
                0 <= k < i ==> #[trigger] world.slots@[k] == (Slot {
                    entity: old_slots[k].entity,
                    comps: ability_cooldown_comps(old_slots[k].comps),
                }),
            forall|k: int| i <= k < world.slots@.len() ==> #[trigger] world.slots@[k] == old_slots[k],
        decreases world.slots@.len() - i,
    {
        ability_cooldown_entity(&mut world.slots[i].comps);
        i = i + 1;
    }
    proof {
        let f = |c: Components| ability_cooldown_comps(c);
        lemma_map_comps_wf(old_slots, f, world.next_id);
        assert(world.slots@ =~= map_comps(old_slots, f));
    }
}

// ─── Target selection ───────────────────────────────────────────────────────
/// A living enemy of `my_team` whose position lies within `r2` (squared
/// radius) of `pos`.
pub open spec fn enemy_near(c: Components, pos: Vec2Fixed, r2: Fixed, my_team: u8) -> bool {
    &&& c.position is Some
    &&& c.team is Some
    &&& c.health is Some
    &&& (c.team->0).0 != my_team
    &&& c.health->0.current > 0
    &&& v_dist_sq(pos, (c.position->0).0).bits <= r2.bits
}

/// The enemies near `pos` with their squared distance bits, in entity order.
pub open spec fn near_enemies(s: Seq<Slot>, pos: Vec2Fixed, r2: Fixed, my_team: u8) -> Seq<
    (Entity, i64),
>
    decreases s.len(),
{
    if s.len() == 0 {
        Seq::empty()
    } else {
        let prev = near_enemies(s.drop_last(), pos, r2, my_team);
        let x = s.last();
        if enemy_near(x.comps, pos, r2, my_team) {
            prev.push((x.entity, v_dist_sq(pos, (x.comps.position->0).0).bits))
        } else {
            prev
        }
    }
}

/// Closer first, then lower entity id.
pub open spec fn hit_before(a: (Entity, i64), b: (Entity, i64)) -> bool {
    a.1 < b.1 || (a.1 == b.1 && a.0.id < b.0.id)
}

pub open spec fn hit_leq(a: (Entity, i64), b: (Entity, i64)) -> bool {
    hit_before(a, b) || (a.1 == b.1 && a.0.id == b.0.id)
}

/// The first of the closest hits among the first `n`.
pub open spec fn closest_hit(h: Seq<(Entity, i64)>, n: int) -> Option<(Entity, i64)>
    decreases n,
{
    if n <= 0 {
        None
    } else {
        let prev = closest_hit(h, n - 1);
        if prev is None || hit_before(h[n - 1], prev->0) {
            Some(h[n - 1])
        } else {
            prev
        }
    }
}

/// The enemy closest to `pos` within `radius` (ties: lower id).
#[verifier::opaque]
pub open spec fn closest_enemy_of(s: Seq<Slot>, pos: Vec2Fixed, radius: Fixed, my_team: u8) -> Option<
    Entity,
> {
    let h = near_enemies(s, pos, fx_mul(radius, radius), my_team);
    match closest_hit(h, h.len() as int) {
        Some(x) => Some(x.0),
        None => None,
    }
}

/// Every enemy within `radius` of `pos`, closest first (ties: lower id).
pub open spec fn enemies_in_radius_of(
    s: Seq<Slot>,
    pos: Vec2Fixed,
    radius: Fixed,
    my_team: u8,
) -> Seq<Entity> {
    near_enemies(s, pos, fx_mul(radius, radius), my_team).sort_by(
        |a: (Entity, i64), b: (Entity, i64)| hit_leq(a, b),
    ).map_values(|h: (Entity, i64)| h.0)
}

fn collect_near(world: &World, pos: Vec2Fixed, r2: Fixed, my_team: u8) -> (r: Vec<(Entity, i64)>)
    ensures
        r@ == near_enemies(world.view(), pos, r2, my_team),
{
    let mut out: Vec<(Entity, i64)> = Vec::new();
    let mut i: usize = 0;
    while i < world.slots.len()
        invariant
            i <= world.slots@.len(),
            out@ == near_enemies(world.slots@.take(i as int), pos, r2, my_team),
        decreases world.slots@.len() - i,
    {
        proof {
            assert(world.slots@.take(i + 1).drop_last() =~= world.slots@.take(i as int));
        }
        let c = &world.slots[i].comps;
        match (c.position, c.team, c.health) {
            (Some(p), Some(t), Some(h)) => {
                if t.0 != my_team && !h.is_dead() {
                    let d = pos.dist_sq(p.0);
                    if d.bits <= r2.bits {
                        out.push((world.slots[i].entity, d.bits));
                    }
                }
            },
            _ => {},
        }
        i = i + 1;
    }
    proof {
        assert(world.slots@.take(world.slots@.len() as int) =~= world.slots@);
    }
    out
}

/// Enemy closest to `pos` within `radius`; ties broken by entity id.
fn closest_enemy(world: &World, pos: Vec2Fixed, radius: Fixed, my_team: u8) -> (r: Option<Entity>)
    ensures
        r == closest_enemy_of(world.view(), pos, radius, my_team),
{
    let r2 = radius * radius;
    let hits = collect_near(world, pos, r2, my_team);
    let mut best: Option<(Entity, i64)> = None;
    let mut j: usize = 0;
    while j < hits.len()
        invariant
            j <= hits@.len(),
            best == closest_hit(hits@, j as int),
        decreases hits@.len() - j,
    {
        let h = hits[j];
        let better = match best {
            None => true,
            Some(b) => h.1 < b.1 || (h.1 == b.1 && h.0.id < b.0.id),
        };
        if better {
            best = Some(h);
        }
        j = j + 1;
    }
    proof {
        reveal(closest_enemy_of);
    }
    match best {
        Some(b) => Some(b.0),
        None => None,
    }
}

/// Sorts hits closest first, ties by entity id, with the standard stable
/// sort (`slice::sort_by_key`).
#[verifier::external_body]
fn sort_hits(hits: &mut Vec<(Entity, i64)>)
    ensures
        final(hits)@ == old(hits)@.sort_by(|a: (Entity, i64), b: (Entity, i64)| hit_leq(a, b)),
{
    hits.sort_by_key(|h| (h.1, h.0.id));
}

/// Every enemy within `radius` of `pos`, in a deterministic order.
fn enemies_in_radius(world: &World, pos: Vec2Fixed, radius: Fixed, my_team: u8) -> (r: Vec<Entity>)
    ensures
        r@ == enemies_in_radius_of(world.view(), pos, radius, my_team),
{
    let r2 = radius * radius;
    let mut hits = collect_near(world, pos, r2, my_team);
    sort_hits(&mut hits);
    let mut out: Vec<Entity> = Vec::new();
    let mut j: usize = 0;
    while j < hits.len()
        invariant
            j <= hits@.len(),
            out@ == hits@.take(j as int).map_values(|h: (Entity, i64)| h.0),
        decreases hits@.len() - j,
    {
        out.push(hits[j].0);
        proof {
            assert(hits@.take(j + 1).map_values(|h: (Entity, i64)| h.0) =~= hits@.take(
                j as int,
            ).map_values(|h: (Entity, i64)| h.0).push(hits@[j as int].0));
        }
        j = j + 1;
    }
    proof {
        assert(hits@.take(hits@.len() as int) =~= hits@);
    }
    out
}

// ─── Casting ────────────────────────────────────────────────────────────────
/// Stun and silence block abilities.
pub open spec fn is_silenced(cc: Option<CrowdControl>) -> bool {
    match cc {
        Some(c) => c.kind is Stun || c.kind is Silence,
        None => false,
    }
}

/// Result of casting: the world, the next entity id, the damage and ability
/// events emitted, and whether spawning a projectile had an id to use.
pub type CastOutcome = (Seq<Slot>, u32, Seq<DamageEvent>, Seq<AbilityEvent>, bool);

/// What one pending ability does, given the world when it is processed.
///
/// Nothing happens for a slot past 3, a caster without position, a stunned
/// or silenced caster, an empty slot, a caster without cooldowns, or a slot
/// on cooldown. Otherwise the cooldown restarts, and if the target point is
/// within range the effect applies and an ability event is emitted.
#[verifier::opaque]
pub open spec fn cast(s: Seq<Slot>, next: u32, caster: Entity, pend: PendingAbility) -> CastOutcome {
    let none: CastOutcome = (s, next, Seq::empty(), Seq::empty(), true);
    let slot = pend.slot as int;
    if slot >= 4 || comps_of(s, caster) is None {
        none
    } else {
        let c = comps_of(s, caster)->0;
        if c.position is None || is_silenced(c.crowd_control) || c.ability_slots is None {
            none
        } else if (c.ability_slots->0).0[slot] is None || c.ability_cooldowns is None {
            none
        } else if (c.ability_cooldowns->0).0[slot] > 0 {
            none
        } else {
            let def = (c.ability_slots->0).0[slot]->0;
            let caster_pos = (c.position->0).0;
            let c1 = Components {
                ability_cooldowns: Some(
                    AbilityCooldowns(
                        vstd::array::spec_array_update(
                            (c.ability_cooldowns->0).0,
                            slot,
                            def.cooldown,
                        ),
                    ),
                ),
                ..c
            };
            let s1 = set_comps(s, caster, c1);
            let target = Vec2Fixed { x: pend.target_x, y: pend.target_y };
            if v_dist_sq(caster_pos, target).bits > fx_mul(def.range, def.range).bits {
                (s1, next, Seq::empty(), Seq::empty(), true)
            } else {
                let my_team: u8 = match c.team {
                    Some(t) => t.0,
                    None => 255,
                };
                let ev = AbilityEvent {
                    caster,
                    ability_slot: pend.slot,
                    target_x: pend.target_x,
                    target_y: pend.target_y,
                    target_id: None,
                };
                match def.effect {
                    AbilityEffect::InstantDamage { amount, hit_radius, cc } => match closest_enemy_of(
                        s1,
                        target,
                        hit_radius,
                        my_team,
                    ) {
                        None => (s1, next, Seq::empty(), seq![ev], true),
                        Some(hit) => {
                            let s2 = match cc {
                                Some(k) => set_comps(
                                    s1,
                                    hit,
                                    Components {
                                        crowd_control: Some(
                                            CrowdControl { kind: k.0, ticks_remaining: k.1 },
                                        ),
                                        ..comps_of(s1, hit)->0
                                    },
                                ),
                                None => s1,
                            };
                            (
                                s2,
                                next,
                                seq![DamageEvent { source: caster, target: hit, amount }],
                                seq![ev],
                                true,
                            )
                        },
                    },
                    AbilityEffect::AreaDamage { radius, amount } => (
                        s1,
                        next,
                        enemies_in_radius_of(s1, target, radius, my_team).map_values(
                            |h: Entity| DamageEvent { source: caster, target: h, amount },
                        ),
                        seq![ev],
                        true,
                    ),
                    AbilityEffect::Dash { distance } => {
                        let dir = v_normalize(v_sub(target, caster_pos));
                        let reach = if def.range.bits < distance.bits {
                            def.range
                        } else {
                            distance
                        };
                        let new_pos = v_add(caster_pos, v_scale(dir, reach));
                        (
                            set_comps(
                                s1,
                                caster,
                                Components {
                                    position: Some(Position(new_pos)),
                                    move_target: None,
                                    path: None,
                                    ..c1
                                },
                            ),
                            next,
                            Seq::empty(),
                            seq![ev],
                            true,
                        )
                    },
                    AbilityEffect::Projectile { speed, damage } => {
                        let dir = v_normalize(v_sub(target, caster_pos));
                        let proj = Components {
                            position: Some(Position(caster_pos)),
                            velocity: Some(Velocity(v_scale(dir, speed))),
                            projectile: Some(
                                Projectile {
                                    owner: caster,
                                    damage,
                                    speed,
                                    target: ProjectileTarget::Point(target),
                                },
                            ),
                            ..no_components()
                        };
                        (
                            s1.push(Slot { entity: Entity { id: next }, comps: proj }),
                            (next + 1) as u32,
                            Seq::empty(),
                            seq![ev],
                            next < u32::MAX,
                        )
                    },
                }
            }
        }
    }
}

/// Every entity with a pending ability, with it, in entity order.
pub open spec fn pending_casts(s: Seq<Slot>) -> Seq<(Entity, PendingAbility)>
    decreases s.len(),
{
    if s.len() == 0 {
        Seq::empty()
    } else {
        let prev = pending_casts(s.drop_last());
        match s.last().comps.pending_ability {
            Some(p) => prev.push((s.last().entity, p)),
            None => prev,
        }
    }
}

/// Processing the first `n` pending abilities in order, each followed by the
/// removal of its `PendingAbility`.
pub open spec fn cast_fold(s: Seq<Slot>, next: u32, ps: Seq<(Entity, PendingAbility)>, n: int) -> CastOutcome
    decreases n,
{
    if n <= 0 {
        (s, next, Seq::empty(), Seq::empty(), true)
    } else {
        let prev = cast_fold(s, next, ps, n - 1);
        let (caster, pend) = ps[n - 1];
        let st = cast(prev.0, prev.1, caster, pend);
        let cleared = match comps_of(st.0, caster) {
            Some(c) => set_comps(st.0, caster, Components { pending_ability: None, ..c }),
            None => st.0,
        };
        (cleared, st.1, prev.2 + st.2, prev.3 + st.3, prev.4 && st.4)
    }
}

proof fn lemma_set_comps_wf(s: Seq<Slot>, next: u32, e: Entity, c: Components)
    requires
        slots_wf(s, next),
    ensures
        slots_wf(set_comps(s, e, c), next),
        set_comps(s, e, c).len() == s.len(),
{
    assert forall|a: int, b: int| 0 <= a < b < s.len() implies set_comps(s, e, c)[a].entity.id
        < set_comps(s, e, c)[b].entity.id by {
        assert(set_comps(s, e, c)[a].entity == s[a].entity);
        assert(set_comps(s, e, c)[b].entity == s[b].entity);
    }
    assert forall|a: int| 0 <= a < s.len() implies set_comps(s, e, c)[a].entity.id < next by {
        assert(set_comps(s, e, c)[a].entity == s[a].entity);
    }
}

/// Casting keeps the world well formed.
proof fn lemma_cast_wf(s: Seq<Slot>, next: u32, caster: Entity, pend: PendingAbility)
    requires
        slots_wf(s, next),
        cast(s, next, caster, pend).4,
    ensures
        slots_wf(cast(s, next, caster, pend).0, cast(s, next, caster, pend).1),
        cast(s, next, caster, pend).1 >= next,
{
    reveal(cast);
    let slot = pend.slot as int;
    if slot < 4 && comps_of(s, caster) is Some {
        let c = comps_of(s, caster)->0;
        if !(c.position is None || is_silenced(c.crowd_control) || c.ability_slots is None)
            && !((c.ability_slots->0).0[slot] is None || c.ability_cooldowns is None)
            && !((c.ability_cooldowns->0).0[slot] > 0) {
            let def = (c.ability_slots->0).0[slot]->0;
            let c1 = Components {
                ability_cooldowns: Some(
                    AbilityCooldowns(
                        vstd::array::spec_array_update(
                            (c.ability_cooldowns->0).0,
                            slot,
                            def.cooldown,
                        ),
                    ),
                ),
                ..c
            };
            let s1 = set_comps(s, caster, c1);
            lemma_set_comps_wf(s, next, caster, c1);
            let target = Vec2Fixed { x: pend.target_x, y: pend.target_y };
            match def.effect {
                AbilityEffect::InstantDamage { amount, hit_radius, cc } => {
                    let my_team: u8 = match c.team {
                        Some(t) => t.0,
                        None => 255,
                    };
                    match closest_enemy_of(s1, target, hit_radius, my_team) {
                        Some(hit) => {
                            match cc {
                                Some(k) => {
                                    lemma_set_comps_wf(
                                        s1,
                                        next,
                                        hit,
                                        Components {
                                            crowd_control: Some(
                                                CrowdControl { kind: k.0, ticks_remaining: k.1 },
                                            ),
                                            ..comps_of(s1, hit)->0
                                        },
                                    );
                                },
                                None => {},
                            }
                        },
                        None => {},
                    }
                },
                AbilityEffect::Dash { distance } => {
                    let caster_pos = (c.position->0).0;
                    let dir = v_normalize(v_sub(target, caster_pos));
                    let reach = if def.range.bits < distance.bits {
                        def.range
                    } else {
                        distance
                    };
                    let new_pos = v_add(caster_pos, v_scale(dir, reach));
                    lemma_set_comps_wf(
                        s1,
                        next,
                        caster,
                        Components {
                            position: Some(Position(new_pos)),
                            move_target: None,
                            path: None,
                            ..c1
                        },
                    );
                },
                _ => {},
            }
        }
    }
}

fn find_team(world: &World, e: Entity) -> (r: u8)
    requires
        world.wf(),
    ensures
        r == (match comps_of(world.view(), e) {
            Some(c) => match c.team {
                Some(t) => t.0,
                None => 255u8,
            },
            None => 255u8,
        }),
{
    match world.find(e) {
        Some(i) => {
            proof {
                lemma_at_index(world.view(), world.next_id, i as int, world.slots@[i as int].comps);
            }
            match world.slots[i].comps.team {
                Some(t) => t.0,
                None => 255,
            }
        },
        None => {
            proof {
                lemma_absent(world.view(), e, no_components());
            }
            255
        },
    }
}

/// Processes one pending ability of `caster` (see [`cast`]).
fn process_ability(world: &mut World, events: &mut EventBus, caster: Entity, pend: PendingAbility)
    requires
        old(world).wf(),
        cast(old(world).view(), old(world).next(), caster, pend).4,
    ensures
        final(world).wf(),
        ({
            let o = cast(old(world).view(), old(world).next(), caster, pend);
            &&& final(world).view() == o.0
            &&& final(world).next() == o.1
            &&& final(events).damage.view() == old(events).damage.view() + o.2
            &&& final(events).abilities.view() == old(events).abilities.view() + o.3
        }),
        final(events).deaths == old(events).deaths,
        final(events).buffs == old(events).buffs,
{
    proof {
        reveal(cast);
    }
    let ghost s0 = world.slots@;
    let slot = pend.slot as usize;
    if slot >= 4 {
        return;
    }
    let i = match world.find(caster) {
        Some(i) => i,
        None => {
            proof {
                lemma_absent(s0, caster, no_components());
            }
            return;
        },
    };
    proof {
        lemma_at_index(s0, world.next_id, i as int, s0[i as int].comps);
    }
    let caster_pos = match world.slots[i].comps.position {
        Some(p) => p.0,
        None => {
            return;
        },
    };
    match world.slots[i].comps.crowd_control {
        Some(cc) => {
            match cc.kind {
                CcKind::Stun | CcKind::Silence => {
                    return;
                },
                _ => {},
            }
        },
        None => {},
    }
    let def = match world.slots[i].comps.ability_slots {
        Some(slots) => match slots.0[slot] {
            Some(d) => d,
            None => {
                return;
            },
        },
        None => {
            return;
        },
    };
    let mut cds = match world.slots[i].comps.ability_cooldowns {
        Some(c) => c,
        None => {
            return;
        },
    };
    if cds.0[slot] > 0 {
        return;
    }
    cds.0[slot] = def.cooldown;
    world.slots[i].comps.ability_cooldowns = Some(cds);
    let ghost c1 = world.slots@[i as int].comps;
    proof {
        lemma_at_index(s0, world.next_id, i as int, c1);
        assert(world.slots@ == set_comps(s0, caster, c1));
    }
    let target = Vec2Fixed::new(pend.target_x, pend.target_y);
    if caster_pos.dist_sq(target).bits > (def.range * def.range).bits {
        return;
    }
    let my_team = match world.slots[i].comps.team {
        Some(t) => t.0,
        None => 255,
    };
    let ghost s1 = world.slots@;
    match def.effect {
        AbilityEffect::InstantDamage { amount, hit_radius, cc } => {
            match closest_enemy(world, target, hit_radius, my_team) {
                Some(hit) => {
                    events.damage.emit(DamageEvent { source: caster, target: hit, amount });
                    match cc {
                        Some(k) => {
                            match world.find(hit) {
                                Some(h) => {
                                    proof {
                                        lemma_at_index(s1, world.next_id, h as int, s1[h as int].comps);
                                    }
                                    world.slots[h].comps.crowd_control = Some(
                                        CrowdControl { kind: k.0, ticks_remaining: k.1 },
                                    );
                                    proof {
                                        lemma_at_index(
                                            s1,
                                            world.next_id,
                                            h as int,
                                            world.slots@[h as int].comps,
                                        );
                                    }
                                },
                                None => {
                                    proof {
                                        lemma_absent(s1, hit, no_components());
                                    }
                                },
                            }
                        },
                        None => {},
                    }
                },
                None => {},
            }
        },
        AbilityEffect::AreaDamage { radius, amount } => {
            let hits = enemies_in_radius(world, target, radius, my_team);
            let ghost d0 = events.damage.view();
            let mut j: usize = 0;
            while j < hits.len()
                invariant
                    j <= hits@.len(),
                    events.damage.view() == d0 + hits@.take(j as int).map_values(
                        |h: Entity| DamageEvent { source: caster, target: h, amount },
                    ),
                    events.deaths == old(events).deaths,
                    events.buffs == old(events).buffs,
                    events.abilities == old(events).abilities,
                decreases hits@.len() - j,
            {
                events.damage.emit(DamageEvent { source: caster, target: hits[j], amount });
                proof {
                    assert(hits@.take(j + 1).map_values(
                        |h: Entity| DamageEvent { source: caster, target: h, amount },
                    ) =~= hits@.take(j as int).map_values(
                        |h: Entity| DamageEvent { source: caster, target: h, amount },
                    ).push(DamageEvent { source: caster, target: hits@[j as int], amount }));
                }
                j = j + 1;
            }
            proof {
                assert(hits@.take(hits@.len() as int) =~= hits@);
            }
        },
        AbilityEffect::Dash { distance } => {
            let dir = (target - caster_pos).normalize();
            let new_pos = caster_pos + dir * distance.min(def.range);
            world.slots[i].comps.position = Some(Position(new_pos));
            world.slots[i].comps.move_target = None;
            world.slots[i].comps.path = None;
            proof {
                lemma_at_index(s1, world.next_id, i as int, world.slots@[i as int].comps);
            }
        },
        AbilityEffect::Projectile { speed, damage } => {
            let dir = (target - caster_pos).normalize();
            let mut proj = Components::empty();
            proj.position = Some(Position(caster_pos));
            proj.velocity = Some(Velocity(dir * speed));
            proj.projectile = Some(
                Projectile { owner: caster, damage, speed, target: ProjectileTarget::Point(target) },
            );
            world.spawn(proj);
        },
    }
    events.abilities.emit(
        AbilityEvent {
            caster,
            ability_slot: pend.slot,
            target_x: pend.target_x,
            target_y: pend.target_y,
            target_id: None,
        },
    );
    proof {
        lemma_cast_wf(s0, old(world).next_id, caster, pend);
    }
}

fn collect_pending(world: &World) -> (r: Vec<(Entity, PendingAbility)>)
    ensures
        r@ == pending_casts(world.view()),
{
    let mut out: Vec<(Entity, PendingAbility)> = Vec::new();
    let mut i: usize = 0;
    while i < world.slots.len()
        invariant
            i <= world.slots@.len(),
            out@ == pending_casts(world.slots@.take(i as int)),
        decreases world.slots@.len() - i,
    {
        proof {
            assert(world.slots@.take(i + 1).drop_last() =~= world.slots@.take(i as int));
        }
        match world.slots[i].comps.pending_ability {
            Some(p) => {
                out.push((world.slots[i].entity, p));
            },
            None => {},
        }
        i = i + 1;
    }
    proof {
        assert(world.slots@.take(world.slots@.len() as int) =~= world.slots@);
    }
    out
}

proof fn lemma_cast_fold_ok_prefix(s: Seq<Slot>, next: u32, ps: Seq<(Entity, PendingAbility)>, n: int)
    requires
        cast_fold(s, next, ps, n).4,
    ensures
        forall|m: int| 0 <= m <= n ==> #[trigger] cast_fold(s, next, ps, m).4,
    decreases n,
{
    if n > 0 {
        lemma_cast_fold_ok_prefix(s, next, ps, n - 1);
    }
}

/// Processes every pending ability in entity order (as they stood when the
/// pass began), removing each `PendingAbility` once handled.
///
/// Spawning a projectile when no entity id is left would overflow, so that
/// input is excluded.
pub fn ability_system(world: &mut World, events: &mut EventBus)
    requires
        old(world).wf(),
        cast_fold(
            old(world).view(),
            old(world).next(),
            pending_casts(old(world).view()),
            pending_casts(old(world).view()).len() as int,
        ).4,
    ensures
        final(world).wf(),
        ({
            let o = cast_fold(
                old(world).view(),
                old(world).next(),
                pending_casts(old(world).view()),
                pending_casts(old(world).view()).len() as int,
            );
            &&& final(world).view() == o.0
            &&& final(world).next() == o.1
            &&& final(events).damage.view() == old(events).damage.view() + o.2
            &&& final(events).abilities.view() == old(events).abilities.view() + o.3
        }),
        final(events).deaths == old(events).deaths,
        final(events).buffs == old(events).buffs,
{
    let pending = collect_pending(world);
    let ghost s0 = world.slots@;
    let ghost n0 = world.next_id;
    let ghost ps = pending@;
    let ghost d0 = events.damage.view();
    let ghost a0 = events.abilities.view();
    proof {
        lemma_cast_fold_ok_prefix(s0, n0, ps, ps.len() as int);
    }
    let mut j: usize = 0;
    while j < pending.len()
        invariant
            j <= pending@.len(),
            ps == pending@,
            forall|m: int| 0 <= m <= ps.len() ==> #[trigger] cast_fold(s0, n0, ps, m).4,
            world.wf(),
            world.slots@ == cast_fold(s0, n0, ps, j as int).0,
            world.next_id == cast_fold(s0, n0, ps, j as int).1,
            events.damage.view() == d0 + cast_fold(s0, n0, ps, j as int).2,
            events.abilities.view() == a0 + cast_fold(s0, n0, ps, j as int).3,
            events.deaths == old(events).deaths,
            events.buffs == old(events).buffs,
        decreases pending@.len() - j,
    {
        let (caster, pend) = pending[j];
        proof {
            assert(cast_fold(s0, n0, ps, j + 1).4);
        }
        process_ability(world, events, caster, pend);
        let ghost sc = world.slots@;
        match world.find(caster) {
            Some(i) => {
                proof {
                    lemma_at_index(sc, world.next_id, i as int, sc[i as int].comps);
                }
                world.slots[i].comps.pending_ability = None;
                proof {
                    lemma_at_index(sc, world.next_id, i as int, world.slots@[i as int].comps);
                }
            },
            None => {
                proof {
                    lemma_absent(sc, caster, no_components());
                }
            },
        }
        proof {
            assert(events.damage.view() =~= d0 + cast_fold(s0, n0, ps, j + 1).2);
            assert(events.abilities.view() =~= a0 + cast_fold(s0, n0, ps, j + 1).3);
        }
        j = j + 1;
    }
}


/// A cast that is blocked changes nothing: a slot past 3, a caster that is
/// gone or has no position, a stunned or silenced caster, an empty slot, no
/// cooldowns or a slot still cooling down leave the world, the next id and
/// the events as they were.
pub proof fn law_blocked_cast_does_nothing(s: Seq<Slot>, next: u32, caster: Entity, pend: PendingAbility)
    requires
        ({
            let c = comps_of(s, caster)->0;
            ||| pend.slot >= 4
            ||| comps_of(s, caster) is None
            ||| c.position is None
            ||| is_silenced(c.crowd_control)
            ||| c.ability_slots is None
            ||| (pend.slot < 4 && c.ability_slots is Some && (c.ability_slots->0).0[pend.slot as int] is None)
            ||| c.ability_cooldowns is None
            ||| (pend.slot < 4 && c.ability_cooldowns is Some && (c.ability_cooldowns->0).0[pend.slot as int] > 0)
        }),
    ensures
        cast(s, next, caster, pend) == (s, next, Seq::<DamageEvent>::empty(), Seq::<AbilityEvent>::empty(), true),
{
    reveal(cast);
}


/// The entity of slot `i` is alive, has a position and a team other than
/// `my_team`, and stands within `radius` of `pos`.
pub open spec fn living_enemy_within(s: Seq<Slot>, i: int, pos: Vec2Fixed, radius: Fixed, my_team: u8) -> bool {
    let c = s[i].comps;
    &&& 0 <= i < s.len()
    &&& c.position is Some
    &&& c.team is Some
    &&& c.health is Some
    &&& (c.team->0).0 != my_team
    &&& (c.health->0).current > 0
    &&& v_dist_sq(pos, (c.position->0).0).bits <= fx_mul(radius, radius).bits
}

/// Squared distance bits from `pos` to the entity of slot `i`.
pub open spec fn dist_bits_of(s: Seq<Slot>, i: int, pos: Vec2Fixed) -> i64 {
    v_dist_sq(pos, (s[i].comps.position->0).0).bits
}

/// `e` is the closest living enemy within `radius` of `pos`: it is one, and
/// no other is strictly closer, nor as close with a lower id.
pub open spec fn is_closest_enemy(s: Seq<Slot>, pos: Vec2Fixed, radius: Fixed, my_team: u8, e: Entity) -> bool {
    exists|i: int|
        #![trigger living_enemy_within(s, i, pos, radius, my_team)]
        living_enemy_within(s, i, pos, radius, my_team) && s[i].entity == e && forall|j: int|
            #![trigger living_enemy_within(s, j, pos, radius, my_team)]
            living_enemy_within(s, j, pos, radius, my_team) ==> dist_bits_of(s, i, pos) < dist_bits_of(
                s,
                j,
                pos,
            ) || (dist_bits_of(s, i, pos) == dist_bits_of(s, j, pos) && e.id <= s[j].entity.id)
}

/// No living enemy of `my_team` stands within `radius` of `pos`.
pub open spec fn no_living_enemy_within(s: Seq<Slot>, pos: Vec2Fixed, radius: Fixed, my_team: u8) -> bool {
    forall|i: int|
        #![trigger living_enemy_within(s, i, pos, radius, my_team)]
        !living_enemy_within(s, i, pos, radius, my_team)
}

/// Each near hit is a living enemy within the radius, with its distance.
proof fn lemma_near_enemies_sound(s: Seq<Slot>, pos: Vec2Fixed, radius: Fixed, my_team: u8, k: int)
    requires
        0 <= k < near_enemies(s, pos, fx_mul(radius, radius), my_team).len(),
    ensures
        ({
            let h = near_enemies(s, pos, fx_mul(radius, radius), my_team);
            exists|i: int|
                #![trigger living_enemy_within(s, i, pos, radius, my_team)]
                living_enemy_within(s, i, pos, radius, my_team) && s[i].entity == h[k].0 && h[k].1
                    == dist_bits_of(s, i, pos)
        }),
    decreases s.len(),
{
    let r2 = fx_mul(radius, radius);
    let t = s.drop_last();
    let hp = near_enemies(t, pos, r2, my_team);
    let h = near_enemies(s, pos, r2, my_team);
    let last = s.len() - 1;
    if k < hp.len() {
        lemma_near_enemies_sound(t, pos, radius, my_team, k);
        assert(h[k] == hp[k]);
        let i = choose|i: int|
            #![trigger living_enemy_within(t, i, pos, radius, my_team)]
            living_enemy_within(t, i, pos, radius, my_team) && t[i].entity == hp[k].0 && hp[k].1
                == dist_bits_of(t, i, pos);
        assert(t[i] == s[i]);
        assert(living_enemy_within(s, i, pos, radius, my_team));
    } else {
        assert(s[last] == s.last());
        assert(living_enemy_within(s, last, pos, radius, my_team));
    }
}

/// Each living enemy within the radius is among the near hits.
proof fn lemma_near_enemies_complete(s: Seq<Slot>, pos: Vec2Fixed, radius: Fixed, my_team: u8, i: int)
    requires
        living_enemy_within(s, i, pos, radius, my_team),
    ensures
        ({
            let h = near_enemies(s, pos, fx_mul(radius, radius), my_team);
            exists|k: int| 0 <= k < h.len() && #[trigger] h[k] == (s[i].entity, dist_bits_of(s, i, pos))
        }),
    decreases s.len(),
{
    let r2 = fx_mul(radius, radius);
    let t = s.drop_last();
    let hp = near_enemies(t, pos, r2, my_team);
    let h = near_enemies(s, pos, r2, my_team);
    let last = s.len() - 1;
    if i < last {
        assert(t[i] == s[i]);
        assert(living_enemy_within(t, i, pos, radius, my_team));
        lemma_near_enemies_complete(t, pos, radius, my_team, i);
        let k = choose|k: int| 0 <= k < hp.len() && #[trigger] hp[k] == (t[i].entity, dist_bits_of(t, i, pos));
        assert(h[k] == hp[k]);
    } else {
        assert(s[i] == s.last());
        assert(h[hp.len() as int] == (s[i].entity, dist_bits_of(s, i, pos)));
    }
}

proof fn lemma_closest_hit(h: Seq<(Entity, i64)>, n: int)
    requires
        0 <= n <= h.len(),
    ensures
        closest_hit(h, n) is None <==> n == 0,
        closest_hit(h, n) matches Some(x) ==> (exists|k: int| 0 <= k < n && h[k] == x) && forall|j: int|
            0 <= j < n ==> #[trigger] h[j].1 > x.1 || (h[j].1 == x.1 && x.0.id <= h[j].0.id),
    decreases n,
{
    if n > 0 {
        lemma_closest_hit(h, n - 1);
        let prev = closest_hit(h, n - 1);
        if prev is Some {
            let x = prev->0;
            let k = choose|k: int| 0 <= k < n - 1 && h[k] == x;
            assert(h[k] == x);
        }
    }
}

/// The instant-damage target is the closest living enemy within the hit
/// radius of the target point (ties to the lower id), and there is none
/// exactly when no living enemy is within the radius.
pub proof fn law_closest_enemy(s: Seq<Slot>, pos: Vec2Fixed, radius: Fixed, my_team: u8)
    ensures
        closest_enemy_of(s, pos, radius, my_team) is None <==> no_living_enemy_within(s, pos, radius, my_team),
        closest_enemy_of(s, pos, radius, my_team) matches Some(e) ==> is_closest_enemy(
            s,
            pos,
            radius,
            my_team,
            e,
        ),
{
    reveal(closest_enemy_of);
    let h = near_enemies(s, pos, fx_mul(radius, radius), my_team);
    lemma_closest_hit(h, h.len() as int);
    let r = closest_hit(h, h.len() as int);
    if r is None {
        assert forall|i: int| #![trigger living_enemy_within(s, i, pos, radius, my_team)] !living_enemy_within(s, i, pos, radius, my_team) by {
            if living_enemy_within(s, i, pos, radius, my_team) {
                lemma_near_enemies_complete(s, pos, radius, my_team, i);
            }
        }
    } else {
        let x = r->0;
        let k = choose|k: int| 0 <= k < h.len() && h[k] == x;
        assert(h[k] == x);
        lemma_near_enemies_sound(s, pos, radius, my_team, k);
        let i = choose|i: int|
            #![trigger living_enemy_within(s, i, pos, radius, my_team)]
            living_enemy_within(s, i, pos, radius, my_team) && s[i].entity == h[k].0 && h[k].1
                == dist_bits_of(s, i, pos);
        assert forall|j: int|
            #![trigger living_enemy_within(s, j, pos, radius, my_team)]
            living_enemy_within(s, j, pos, radius, my_team) implies dist_bits_of(s, i, pos) < dist_bits_of(
                s,
                j,
                pos,
            ) || (dist_bits_of(s, i, pos) == dist_bits_of(s, j, pos) && x.0.id <= s[j].entity.id) by {
            lemma_near_enemies_complete(s, pos, radius, my_team, j);
            let m = choose|m: int| 0 <= m < h.len() && #[trigger] h[m] == (s[j].entity, dist_bits_of(s, j, pos));
            assert(h[m].1 > x.1 || (h[m].1 == x.1 && x.0.id <= h[m].0.id));
        }
        assert(is_closest_enemy(s, pos, radius, my_team, x.0));
        assert(!no_living_enemy_within(s, pos, radius, my_team));
    }
}


/// Two worlds with the same entities at the same places, of the same teams
/// and health, have the same closest enemies.
proof fn lemma_same_targets(s: Seq<Slot>, s1: Seq<Slot>, pos: Vec2Fixed, radius: Fixed, my_team: u8, e: Entity)
    requires
        s1.len() == s.len(),
        forall|i: int|
            0 <= i < s.len() ==> (#[trigger] s1[i]).entity == s[i].entity && s1[i].comps.position
                == s[i].comps.position && s1[i].comps.team == s[i].comps.team && s1[i].comps.health
                == s[i].comps.health,
    ensures
        no_living_enemy_within(s1, pos, radius, my_team) == no_living_enemy_within(s, pos, radius, my_team),
        is_closest_enemy(s1, pos, radius, my_team, e) ==> is_closest_enemy(s, pos, radius, my_team, e),
{
    assert forall|i: int|
        #![trigger living_enemy_within(s, i, pos, radius, my_team)]
        living_enemy_within(s, i, pos, radius, my_team) == living_enemy_within(s1, i, pos, radius, my_team) by {
        if 0 <= i < s.len() {
            assert(s1[i].entity == s[i].entity);
        }
    }
    if no_living_enemy_within(s1, pos, radius, my_team) {
        assert forall|i: int|
            #![trigger living_enemy_within(s, i, pos, radius, my_team)]
            !living_enemy_within(s, i, pos, radius, my_team) by {
            if living_enemy_within(s, i, pos, radius, my_team) {
                assert(living_enemy_within(s1, i, pos, radius, my_team));
            }
        }
    }
    if no_living_enemy_within(s, pos, radius, my_team) {
        assert forall|i: int|
            #![trigger living_enemy_within(s1, i, pos, radius, my_team)]
            !living_enemy_within(s1, i, pos, radius, my_team) by {
            if living_enemy_within(s1, i, pos, radius, my_team) {
                assert(living_enemy_within(s, i, pos, radius, my_team));
            }
        }
    }
    if is_closest_enemy(s1, pos, radius, my_team, e) {
        let i = choose|i: int|
            #![trigger living_enemy_within(s1, i, pos, radius, my_team)]
            living_enemy_within(s1, i, pos, radius, my_team) && s1[i].entity == e && forall|j: int|
                #![trigger living_enemy_within(s1, j, pos, radius, my_team)]
                living_enemy_within(s1, j, pos, radius, my_team) ==> dist_bits_of(s1, i, pos)
                    < dist_bits_of(s1, j, pos) || (dist_bits_of(s1, i, pos) == dist_bits_of(s1, j, pos)
                    && e.id <= s1[j].entity.id);
        assert(s1[i].entity == s[i].entity);
        assert(living_enemy_within(s, i, pos, radius, my_team));
        assert forall|j: int|
            #![trigger living_enemy_within(s, j, pos, radius, my_team)]
            living_enemy_within(s, j, pos, radius, my_team) implies dist_bits_of(s, i, pos) < dist_bits_of(
                s,
                j,
                pos,
            ) || (dist_bits_of(s, i, pos) == dist_bits_of(s, j, pos) && e.id <= s[j].entity.id) by {
            assert(living_enemy_within(s1, j, pos, radius, my_team));
            assert(s1[j].entity == s[j].entity);
        }
    }
}

/// The world an active cast works on: the caster's cooldown restarted.
#[verifier::opaque]
spec fn cast_world(s: Seq<Slot>, caster: Entity, pend: PendingAbility) -> Seq<Slot> {
    let c = comps_of(s, caster)->0;
    let slot = pend.slot as int;
    let def = (c.ability_slots->0).0[slot]->0;
    set_comps(
        s,
        caster,
        Components {
            ability_cooldowns: Some(
                AbilityCooldowns(vstd::array::spec_array_update((c.ability_cooldowns->0).0, slot, def.cooldown)),
            ),
            ..c
        },
    )
}

/// Whether a cast goes off: caster placed, free to cast, slot ready, target
/// point in range.
spec fn cast_goes_off(s: Seq<Slot>, caster: Entity, pend: PendingAbility) -> bool {
    let c = comps_of(s, caster)->0;
    let def = (c.ability_slots->0).0[pend.slot as int]->0;
    let target = Vec2Fixed { x: pend.target_x, y: pend.target_y };
    c.position is Some && !is_silenced(c.crowd_control) && c.ability_cooldowns is Some && (c.ability_cooldowns->0).0[pend.slot as int]
        == 0 && v_dist_sq((c.position->0).0, target).bits <= fx_mul(def.range, def.range).bits
}

/// The damage of an instant-damage cast.
spec fn instant_events(s: Seq<Slot>, caster: Entity, pend: PendingAbility) -> Seq<DamageEvent> {
    let c = comps_of(s, caster)->0;
    let def = (c.ability_slots->0).0[pend.slot as int]->0;
    let my_team: u8 = match c.team {
        Some(t) => t.0,
        None => 255,
    };
    let target = Vec2Fixed { x: pend.target_x, y: pend.target_y };
    let active = cast_goes_off(s, caster, pend);
    if active {
        match closest_enemy_of(
            cast_world(s, caster, pend),
            target,
            def.effect->InstantDamage_hit_radius,
            my_team,
        ) {
            Some(hit) => seq![
                DamageEvent { source: caster, target: hit, amount: def.effect->InstantDamage_amount },
            ],
            None => Seq::empty(),
        }
    } else {
        Seq::<DamageEvent>::empty()
    }
}

/// The damage of an instant-damage cast: one hit on the closest enemy of
/// the cast's world when it goes off, nothing otherwise.
proof fn lemma_instant_events(s: Seq<Slot>, next: u32, caster: Entity, pend: PendingAbility)
    requires
        comps_of(s, caster) is Some,
        pend.slot < 4,
        (comps_of(s, caster)->0).ability_slots is Some,
        ((comps_of(s, caster)->0).ability_slots->0).0[pend.slot as int] is Some,
        (((comps_of(s, caster)->0).ability_slots->0).0[pend.slot as int]->0).effect is InstantDamage,
    ensures
        cast(s, next, caster, pend).2 == instant_events(s, caster, pend),
{
    reveal(cast);
    reveal(cast_world);
    let c = comps_of(s, caster)->0;
    let def = (c.ability_slots->0).0[pend.slot as int]->0;
    let target = Vec2Fixed { x: pend.target_x, y: pend.target_y };
    let my_team: u8 = match c.team {
        Some(t) => t.0,
        None => 255,
    };
    if cast_goes_off(s, caster, pend) {
        match def.effect {
            AbilityEffect::InstantDamage { amount, hit_radius, cc } => {
                let w = cast_world(s, caster, pend);
                match closest_enemy_of(w, target, hit_radius, my_team) {
                    Some(hit) => {
                        assert(cast(s, next, caster, pend).2 =~= seq![
                            DamageEvent { source: caster, target: hit, amount },
                        ]);
                    },
                    None => {
                        assert(cast(s, next, caster, pend).2 =~= Seq::<DamageEvent>::empty());
                    },
                }
            },
            _ => {},
        }
    } else {
        assert(cast(s, next, caster, pend).2 =~= Seq::<DamageEvent>::empty());
    }
}

/// The cast's world has the same entities at the same places, of the same
/// teams and health.
proof fn lemma_cast_world_fields(s: Seq<Slot>, next: u32, caster: Entity, pend: PendingAbility)
    requires
        slots_wf(s, next),
        comps_of(s, caster) is Some,
    ensures
        cast_world(s, caster, pend).len() == s.len(),
        forall|i: int|
            0 <= i < s.len() ==> (#[trigger] cast_world(s, caster, pend)[i]).entity == s[i].entity
                && cast_world(s, caster, pend)[i].comps.position == s[i].comps.position
                && cast_world(s, caster, pend)[i].comps.team == s[i].comps.team
                && cast_world(s, caster, pend)[i].comps.health == s[i].comps.health,
{
    reveal(cast_world);
    assert(has_entity(s, caster));
    let ci = choose|i: int| 0 <= i < s.len() && s[i].entity == caster;
    let s1 = cast_world(s, caster, pend);
    assert forall|i: int| 0 <= i < s.len() implies (#[trigger] s1[i]).entity == s[i].entity
        && s1[i].comps.position == s[i].comps.position && s1[i].comps.team == s[i].comps.team
        && s1[i].comps.health == s[i].comps.health by {
        if s[i].entity == caster {
            crate::game::base::ecs::lemma_unique_index(s, next, i, ci);
        }
    }
}

/// An instant-damage ability hits at most once, from the caster for the
/// ability's amount, and only the closest living enemy within the hit
/// radius of the target point (ties to the lower id); when the cast goes
/// off within range, it misses only when no living enemy is within the
/// radius.
proof fn lemma_instant_core(s: Seq<Slot>, next: u32, caster: Entity, pend: PendingAbility)
    requires
        slots_wf(s, next),
        comps_of(s, caster) is Some,
        pend.slot < 4,
        (comps_of(s, caster)->0).ability_slots is Some,
        ((comps_of(s, caster)->0).ability_slots->0).0[pend.slot as int] is Some,
        (((comps_of(s, caster)->0).ability_slots->0).0[pend.slot as int]->0).effect is InstantDamage,
    ensures
        ({
            let c = comps_of(s, caster)->0;
            let def = (c.ability_slots->0).0[pend.slot as int]->0;
            let my_team: u8 = match c.team {
                Some(t) => t.0,
                None => 255,
            };
            let target = Vec2Fixed { x: pend.target_x, y: pend.target_y };
            let evs = instant_events(s, caster, pend);
            &&& evs.len() <= 1
            &&& forall|m: int|
                0 <= m < evs.len() ==> (#[trigger] evs[m]).source == caster && evs[m].amount
                    == def.effect->InstantDamage_amount && is_closest_enemy(
                    s,
                    target,
                    def.effect->InstantDamage_hit_radius,
                    my_team,
                    evs[m].target,
                )
            &&& cast_goes_off(s, caster, pend) ==> (evs.len() == 0 <==> no_living_enemy_within(
                s,
                target,
                def.effect->InstantDamage_hit_radius,
                my_team,
            ))
        }),
{
    let c = comps_of(s, caster)->0;
    let slot = pend.slot as int;
    let def = (c.ability_slots->0).0[slot]->0;
    let my_team: u8 = match c.team {
        Some(t) => t.0,
        None => 255,
    };
    let target = Vec2Fixed { x: pend.target_x, y: pend.target_y };
    let radius = def.effect->InstantDamage_hit_radius;
    let s1 = cast_world(s, caster, pend);
    lemma_cast_world_fields(s, next, caster, pend);
    let evs = instant_events(s, caster, pend);
    law_closest_enemy(s1, target, radius, my_team);
    if cast_goes_off(s, caster, pend) {
        match closest_enemy_of(s1, target, radius, my_team) {
            Some(hit) => {
                lemma_same_targets(s, s1, target, radius, my_team, hit);
                assert(evs == seq![
                    DamageEvent { source: caster, target: hit, amount: def.effect->InstantDamage_amount },
                ]);
                assert(is_closest_enemy(s, target, radius, my_team, hit));
                assert(!no_living_enemy_within(s1, target, radius, my_team));
                assert(evs[0].target == hit);
            },
            None => {
                lemma_same_targets(s, s1, target, radius, my_team, caster);
                assert(evs =~= Seq::<DamageEvent>::empty());
            },
        }
    } else {
        assert(evs =~= Seq::<DamageEvent>::empty());
    }
}

pub proof fn law_instant_damage_hits_closest(s: Seq<Slot>, next: u32, caster: Entity, pend: PendingAbility)
    requires
        slots_wf(s, next),
        comps_of(s, caster) is Some,
        pend.slot < 4,
        (comps_of(s, caster)->0).ability_slots is Some,
        ((comps_of(s, caster)->0).ability_slots->0).0[pend.slot as int] is Some,
        (((comps_of(s, caster)->0).ability_slots->0).0[pend.slot as int]->0).effect is InstantDamage,
    ensures
        ({
            let c = comps_of(s, caster)->0;
            let def = (c.ability_slots->0).0[pend.slot as int]->0;
            let my_team: u8 = match c.team {
                Some(t) => t.0,
                None => 255,
            };
            let target = Vec2Fixed { x: pend.target_x, y: pend.target_y };
            let evs = cast(s, next, caster, pend).2;
            &&& evs.len() <= 1
            &&& forall|m: int|
                0 <= m < evs.len() ==> (#[trigger] evs[m]).source == caster && evs[m].amount
                    == def.effect->InstantDamage_amount && is_closest_enemy(
                    s,
                    target,
                    def.effect->InstantDamage_hit_radius,
                    my_team,
                    evs[m].target,
                )
            &&& (c.position is Some && !is_silenced(c.crowd_control) && c.ability_cooldowns is Some
                && (c.ability_cooldowns->0).0[pend.slot as int] == 0 && v_dist_sq(
                (c.position->0).0,
                target,
            ).bits <= fx_mul(def.range, def.range).bits) ==> (evs.len() == 0 <==> no_living_enemy_within(
                s,
                target,
                def.effect->InstantDamage_hit_radius,
                my_team,
            ))
        }),
{
    lemma_instant_events(s, next, caster, pend);
    lemma_instant_core(s, next, caster, pend);
}

} // verus!
