//! Bounds under which a whole tick stays within `i32` and `u32`: health
//! never negative, damage never negative, auto-attack damage small enough to
//! double, and room for one new entity id per entity. A tick of a world
//! within these bounds never overflows.
use vstd::prelude::*;

use crate::game::base::ecs::{Components, Entity, Slot, comps_of, has_entity, no_components, set_comps};
use crate::game::base::events::{DamageEvent, DeathEvent};
use crate::game::input::events::InputEvent;
use crate::game::sim::components::{AbilityDef, AbilityEffect, PendingAbility};
use crate::game::sim::pathfinding::grid::NavigationGrid;
use crate::game::sim::systems::abilities::{cast, cast_fold, pending_casts};
use crate::game::sim::systems::abilities::ability_cooldown_comps;
use crate::game::sim::systems::combat::{
    TargetInfo, attack_fold, attack_step, attack_targets, cooldown_comps, damage_fold, damage_step,
};
use crate::game::sim::systems::movement::{clear_arrived_comps, move_target_comps, movement_comps};
use crate::game::sim::systems::movement::map_comps;
use crate::game::sim::world::{SimWorld, input_comps, inputs_applied, paths_rel, tick_after_paths};

verus! {

/// Largest auto-attack damage whose critical hit (twice the damage) still
/// fits in an `i32`.
pub const MAX_SAFE_ATTACK: i32 = 0x3fff_ffff;

/// An ability that deals no negative damage.
pub open spec fn def_safe(d: Option<AbilityDef>) -> bool {
    match d {
        Some(def) => match def.effect {
            AbilityEffect::InstantDamage { amount, .. } => amount >= 0,
            AbilityEffect::AreaDamage { amount, .. } => amount >= 0,
            AbilityEffect::Projectile { damage, .. } => damage >= 0,
            AbilityEffect::Dash { .. } => true,
        },
        None => true,
    }
}

/// The components of an entity are within the bounds.
#[verifier::opaque]
pub open spec fn comps_safe(c: Components) -> bool {
    &&& (c.health matches Some(h) ==> h.current >= 0)
    &&& (c.attack_damage matches Some(d) ==> 0 <= d.0 <= MAX_SAFE_ATTACK)
    &&& (c.ability_slots matches Some(sl) ==> forall|i: int| 0 <= i < 4 ==> def_safe(#[trigger] sl.0[i]))
    &&& (c.projectile matches Some(p) ==> p.damage >= 0)
}

/// Every entity is within the bounds.
pub open spec fn slots_safe(s: Seq<Slot>) -> bool {
    forall|i: int| 0 <= i < s.len() ==> comps_safe(#[trigger] s[i].comps)
}

/// No damage event is negative.
pub open spec fn damage_safe(d: Seq<DamageEvent>) -> bool {
    forall|i: int| 0 <= i < d.len() ==> (#[trigger] d[i]).amount >= 0
}

/// Components that agree on health, attack damage, abilities and projectile
/// are within the bounds together.
pub proof fn lemma_same_bounded_fields(c: Components, d: Components)
    requires
        comps_safe(c),
        d.health == c.health,
        d.attack_damage == c.attack_damage,
        d.ability_slots == c.ability_slots,
        d.projectile == c.projectile,
    ensures
        comps_safe(d),
{
    reveal(comps_safe);
}

/// Changing components in a way that keeps them within the bounds keeps a
/// world within them.
pub proof fn lemma_map_comps_safe(s: Seq<Slot>, f: spec_fn(Components) -> Components)
    requires
        slots_safe(s),
        forall|c: Components| comps_safe(c) ==> #[trigger] comps_safe(f(c)),
    ensures
        slots_safe(map_comps(s, f)),
        map_comps(s, f).len() == s.len(),
{
    assert forall|i: int| 0 <= i < map_comps(s, f).len() implies comps_safe(
        #[trigger] map_comps(s, f)[i].comps,
    ) by {
        assert(map_comps(s, f)[i].comps == f(s[i].comps));
    }
}

pub proof fn lemma_inputs_safe(s: Seq<Slot>, inputs: Seq<InputEvent>)
    requires
        slots_safe(s),
    ensures
        slots_safe(inputs_applied(s, inputs)),
        inputs_applied(s, inputs).len() == s.len(),
    decreases inputs.len(),
{
    if inputs.len() > 0 {
        lemma_inputs_safe(s, inputs.drop_last());
        let ev = inputs.last();
        let f = |c: Components| input_comps(ev, c);
        assert forall|c: Components| comps_safe(c) implies #[trigger] comps_safe(f(c)) by {
            lemma_same_bounded_fields(c, f(c));
        }
        lemma_map_comps_safe(inputs_applied(s, inputs.drop_last()), f);
    }
}

pub proof fn lemma_paths_safe(nav: &NavigationGrid, s1: Seq<Slot>, s2: Seq<Slot>)
    requires
        slots_safe(s1),
        paths_rel(nav, s1, s2),
    ensures
        slots_safe(s2),
        s2.len() == s1.len(),
{
    assert forall|i: int| 0 <= i < s2.len() implies comps_safe(#[trigger] s2[i].comps) by {
        assert(comps_safe(s1[i].comps));
        lemma_same_bounded_fields(s1[i].comps, s2[i].comps);
    }
}


/// The components of an entity of a world within the bounds are within them.
pub proof fn lemma_comps_of_safe(s: Seq<Slot>, e: Entity)
    requires
        slots_safe(s),
    ensures
        comps_of(s, e) matches Some(c) ==> comps_safe(c),
{
    if has_entity(s, e) {
        let i = choose|i: int| 0 <= i < s.len() && s[i].entity == e;
        assert(comps_safe(s[i].comps));
    }
}

/// Replacing the components of an entity by ones within the bounds keeps the
/// world within them (nothing changes for an entity that is not there).
pub proof fn lemma_set_comps_safe(s: Seq<Slot>, e: Entity, c: Components)
    requires
        slots_safe(s),
        has_entity(s, e) ==> comps_safe(c),
    ensures
        slots_safe(set_comps(s, e, c)),
        set_comps(s, e, c).len() == s.len(),
{
    assert forall|i: int| 0 <= i < set_comps(s, e, c).len() implies comps_safe(
        #[trigger] set_comps(s, e, c)[i].comps,
    ) by {
        assert(comps_safe(s[i].comps));
        if s[i].entity == e {
            assert(has_entity(s, e));
        }
    }
}

/// One cast in a world within the bounds: the world stays within them, its
/// damage is not negative, it takes at most one entity id, and it has an id
/// whenever one is left.
#[verifier::rlimit(100)]
pub proof fn lemma_cast_safe(s: Seq<Slot>, next: u32, caster: Entity, pend: PendingAbility)
    requires
        slots_safe(s),
    ensures
        ({
            let o = cast(s, next, caster, pend);
            &&& slots_safe(o.0)
            &&& damage_safe(o.2)
            &&& o.1 <= next + 1
            &&& next < u32::MAX ==> next <= o.1 && o.4
        }),
{
    reveal(cast);
    lemma_comps_of_safe(s, caster);
    let slot = pend.slot as int;
    if slot < 4 && comps_of(s, caster) is Some {
        let c = comps_of(s, caster)->0;
        if !(c.position is None || crate::game::sim::systems::abilities::is_silenced(c.crowd_control)
            || c.ability_slots is None) && !((c.ability_slots->0).0[slot] is None
            || c.ability_cooldowns is None) && !((c.ability_cooldowns->0).0[slot] > 0) {
            let def = (c.ability_slots->0).0[slot]->0;
            assert(def_safe((c.ability_slots->0).0[slot])) by {
                reveal(comps_safe);
            }
            let c1 = Components {
                ability_cooldowns: Some(
                    crate::game::sim::components::AbilityCooldowns(
                        vstd::array::spec_array_update((c.ability_cooldowns->0).0, slot, def.cooldown),
                    ),
                ),
                ..c
            };
            lemma_same_bounded_fields(c, c1);
            lemma_set_comps_safe(s, caster, c1);
            let s1 = set_comps(s, caster, c1);
            match def.effect {
                AbilityEffect::InstantDamage { amount, hit_radius, cc } => {
                    let my_team: u8 = match c.team {
                        Some(t) => t.0,
                        None => 255,
                    };
                    let target = crate::game::base::types::Vec2Fixed { x: pend.target_x, y: pend.target_y };
                    match crate::game::sim::systems::abilities::closest_enemy_of(s1, target, hit_radius, my_team) {
                        Some(hit) => {
                            lemma_comps_of_safe(s1, hit);
                            match cc {
                                Some(k) => {
                                    let ch = Components {
                                        crowd_control: Some(
                                            crate::game::sim::components::CrowdControl {
                                                kind: k.0,
                                                ticks_remaining: k.1,
                                            },
                                        ),
                                        ..comps_of(s1, hit)->0
                                    };
                                    if has_entity(s1, hit) {
                                        assert(comps_of(s1, hit) is Some);
                                        lemma_same_bounded_fields(comps_of(s1, hit)->0, ch);
                                    }
                                    lemma_set_comps_safe(s1, hit, ch);
                                },
                                None => {},
                            }
                        },
                        None => {},
                    }
                },
                AbilityEffect::Dash { distance } => {
                    let caster_pos = (c.position->0).0;
                    let target = crate::game::base::types::Vec2Fixed { x: pend.target_x, y: pend.target_y };
                    let dir = crate::game::base::types::v_normalize(crate::game::base::types::v_sub(target, caster_pos));
                    let reach = if def.range.bits < distance.bits {
                        def.range
                    } else {
                        distance
                    };
                    let new_pos = crate::game::base::types::v_add(caster_pos, crate::game::base::types::v_scale(dir, reach));
                    let c2 = Components {
                        position: Some(crate::game::sim::components::Position(new_pos)),
                        move_target: None,
                        path: None,
                        ..c1
                    };
                    lemma_same_bounded_fields(c1, c2);
                    lemma_set_comps_safe(s1, caster, c2);
                },
                AbilityEffect::Projectile { speed, damage } => {
                    let o = cast(s, next, caster, pend);
                    assert forall|i: int| 0 <= i < o.0.len() implies comps_safe(#[trigger] o.0[i].comps) by {
                        if i < s1.len() {
                            assert(o.0[i] == s1[i]);
                        } else {
                            reveal(comps_safe);
                        }
                    }
                },
                AbilityEffect::AreaDamage { radius, amount } => {},
            }
        }
    }
}


proof fn lemma_damage_concat(a: Seq<DamageEvent>, b: Seq<DamageEvent>)
    requires
        damage_safe(a),
        damage_safe(b),
    ensures
        damage_safe(a + b),
{
    assert forall|i: int| 0 <= i < (a + b).len() implies (#[trigger] (a + b)[i]).amount >= 0 by {
        if i >= a.len() {
            assert((a + b)[i] == b[i - a.len()]);
        }
    }
}

/// Casting the first `n` pending abilities in a world within the bounds,
/// with room for `n` more ids: the world stays within the bounds, no damage
/// is negative, and every projectile gets an id.
pub proof fn lemma_cast_fold_safe(s: Seq<Slot>, next: u32, ps: Seq<(Entity, PendingAbility)>, n: int)
    requires
        slots_safe(s),
        0 <= n <= ps.len(),
        next + n < u32::MAX,
    ensures
        ({
            let o = cast_fold(s, next, ps, n);
            &&& slots_safe(o.0)
            &&& damage_safe(o.2)
            &&& o.4
            &&& next <= o.1 <= next + n
        }),
    decreases n,
{
    if n > 0 {
        lemma_cast_fold_safe(s, next, ps, n - 1);
        let prev = cast_fold(s, next, ps, n - 1);
        let (caster, pend) = ps[n - 1];
        lemma_cast_safe(prev.0, prev.1, caster, pend);
        let st = cast(prev.0, prev.1, caster, pend);
        lemma_comps_of_safe(st.0, caster);
        match comps_of(st.0, caster) {
            Some(c) => {
                let c2 = Components { pending_ability: None, ..c };
                lemma_same_bounded_fields(c, c2);
                lemma_set_comps_safe(st.0, caster, c2);
            },
            None => {},
        }
        lemma_damage_concat(prev.2, st.2);
    }
}


/// One auto-attack of an entity within the bounds: it stays within them, its
/// damage is not negative, and a critical hit fits in an `i32`.
pub proof fn lemma_attack_step_safe(c: Components, e: Entity, ts: Seq<TargetInfo>, rng: u64)
    requires
        comps_safe(c),
    ensures
        ({
            let st = attack_step(c, e, ts, rng);
            &&& comps_safe(st.0)
            &&& damage_safe(st.2)
            &&& st.3
        }),
{
    reveal(attack_step);
    let st = attack_step(c, e, ts, rng);
    lemma_same_bounded_fields(c, st.0);
    reveal(comps_safe);
}

pub proof fn lemma_attack_fold_safe(s: Seq<Slot>, ts: Seq<TargetInfo>, n: int, rng: u64)
    requires
        slots_safe(s),
        0 <= n <= s.len(),
    ensures
        ({
            let f = attack_fold(s, ts, n, rng);
            &&& slots_safe(f.0)
            &&& f.0.len() == n
            &&& damage_safe(f.2)
            &&& f.3
        }),
    decreases n,
{
    if n > 0 {
        lemma_attack_fold_safe(s, ts, n - 1, rng);
        let prev = attack_fold(s, ts, n - 1, rng);
        assert(comps_safe(s[n - 1].comps));
        lemma_attack_step_safe(s[n - 1].comps, s[n - 1].entity, ts, prev.1);
        let st = attack_step(s[n - 1].comps, s[n - 1].entity, ts, prev.1);
        let f = attack_fold(s, ts, n, rng);
        assert forall|i: int| 0 <= i < f.0.len() implies comps_safe(#[trigger] f.0[i].comps) by {
            if i < n - 1 {
                assert(f.0[i] == prev.0[i]);
            }
        }
        lemma_damage_concat(prev.2, st.2);
    }
}

/// Damage that is never negative, dealt to a world within the bounds,
/// stays within `i32` and keeps the world within the bounds.
pub proof fn lemma_damage_fold_safe(s: Seq<Slot>, evs: Seq<DamageEvent>, n: int)
    requires
        slots_safe(s),
        damage_safe(evs),
        0 <= n <= evs.len(),
    ensures
        ({
            let h = damage_fold(s, evs, n);
            &&& slots_safe(h.0)
            &&& h.2
        }),
    decreases n,
{
    if n > 0 {
        lemma_damage_fold_safe(s, evs, n - 1);
        let prev = damage_fold(s, evs, n - 1);
        let ev = evs[n - 1];
        assert(ev.amount >= 0);
        let p = prev.0;
        if exists|i: int| 0 <= i < p.len() && p[i].entity == ev.target && p[i].comps.health is Some {
            let i = choose|i: int| 0 <= i < p.len() && p[i].entity == ev.target && p[i].comps.health is Some;
            assert(comps_safe(p[i].comps));
            assert(p[i].comps.health->0.current >= 0) by {
                reveal(comps_safe);
            }
            let st = damage_step(p, ev);
            assert forall|j: int| 0 <= j < st.0.len() implies comps_safe(#[trigger] st.0[j].comps) by {
                assert(comps_safe(p[j].comps));
                if j == i {
                    reveal(comps_safe);
                }
            }
        }
    }
}


proof fn lemma_pending_casts_len(s: Seq<Slot>)
    ensures
        pending_casts(s).len() <= s.len(),
    decreases s.len(),
{
    if s.len() > 0 {
        lemma_pending_casts_len(s.drop_last());
    }
}

/// A tick that starts within the bounds, with no negative damage queued and
/// room for one new id per entity, never leaves `i32` or runs out of ids,
/// whatever paths are planned.
pub proof fn lemma_tick_safe(
    nav: &NavigationGrid,
    s: Seq<Slot>,
    inputs: Seq<InputEvent>,
    next: u32,
    rng: u64,
    dmg0: Seq<DamageEvent>,
    deaths0: Seq<DeathEvent>,
)
    requires
        slots_safe(s),
        damage_safe(dmg0),
        next + s.len() < u32::MAX,
    ensures
        forall|s2: Seq<Slot>|
            #[trigger] paths_rel(nav, inputs_applied(s, inputs), s2) ==> tick_after_paths(
                s2,
                next,
                rng,
                dmg0,
                deaths0,
            ).3,
{
    lemma_inputs_safe(s, inputs);
    let s1 = inputs_applied(s, inputs);
    assert forall|s2: Seq<Slot>| #[trigger] paths_rel(nav, s1, s2) implies tick_after_paths(
        s2,
        next,
        rng,
        dmg0,
        deaths0,
    ).3 by {
        lemma_paths_safe(nav, s1, s2);
        let f1 = |c: Components| move_target_comps(c);
        let f2 = |c: Components| movement_comps(c);
        let f3 = |c: Components| clear_arrived_comps(c);
        assert forall|c: Components| comps_safe(c) implies #[trigger] comps_safe(f1(c)) by {
            lemma_same_bounded_fields(c, f1(c));
        }
        assert forall|c: Components| comps_safe(c) implies #[trigger] comps_safe(f2(c)) by {
            lemma_same_bounded_fields(c, f2(c));
        }
        assert forall|c: Components| comps_safe(c) implies #[trigger] comps_safe(f3(c)) by {
            lemma_same_bounded_fields(c, f3(c));
        }
        lemma_map_comps_safe(s2, f1);
        lemma_map_comps_safe(map_comps(s2, f1), f2);
        lemma_map_comps_safe(map_comps(map_comps(s2, f1), f2), f3);
        let s3 = map_comps(map_comps(map_comps(s2, f1), f2), f3);
        let pend = pending_casts(s3);
        lemma_pending_casts_len(s3);
        lemma_cast_fold_safe(s3, next, pend, pend.len() as int);
        let o = cast_fold(s3, next, pend, pend.len() as int);
        let g1 = |c: Components| cooldown_comps(c);
        let g2 = |c: Components| ability_cooldown_comps(c);
        assert forall|c: Components| comps_safe(c) implies #[trigger] comps_safe(g1(c)) by {
            lemma_same_bounded_fields(c, g1(c));
        }
        assert forall|c: Components| comps_safe(c) implies #[trigger] comps_safe(g2(c)) by {
            lemma_same_bounded_fields(c, g2(c));
        }
        lemma_map_comps_safe(o.0, g1);
        lemma_map_comps_safe(map_comps(o.0, g1), g2);
        let s5 = map_comps(map_comps(o.0, g1), g2);
        lemma_attack_fold_safe(s5, attack_targets(s5), s5.len() as int, rng);
        let f = attack_fold(s5, attack_targets(s5), s5.len() as int, rng);
        lemma_damage_concat(dmg0, o.2);
        lemma_damage_concat(dmg0 + o.2, f.2);
        let dmg = dmg0 + o.2 + f.2;
        lemma_damage_fold_safe(f.0, dmg, dmg.len() as int);
    }
}


fn def_within_bounds(d: &Option<AbilityDef>) -> (r: bool)
    ensures
        r == def_safe(*d),
{
    match d {
        Some(def) => match def.effect {
            AbilityEffect::InstantDamage { amount, .. } => amount >= 0,
            AbilityEffect::AreaDamage { amount, .. } => amount >= 0,
            AbilityEffect::Projectile { damage, .. } => damage >= 0,
            AbilityEffect::Dash { .. } => true,
        },
        None => true,
    }
}

/// Whether the components of an entity are within the bounds.
pub fn comps_within_bounds(c: &Components) -> (r: bool)
    ensures
        r == comps_safe(*c),
{
    proof {
        reveal(comps_safe);
    }
    let health_ok = match c.health {
        Some(h) => h.current >= 0,
        None => true,
    };
    let attack_ok = match c.attack_damage {
        Some(d) => 0 <= d.0 && d.0 <= MAX_SAFE_ATTACK,
        None => true,
    };
    let abilities_ok = match &c.ability_slots {
        Some(sl) => {
            let ok = def_within_bounds(&sl.0[0]) && def_within_bounds(&sl.0[1]) && def_within_bounds(
                &sl.0[2],
            ) && def_within_bounds(&sl.0[3]);
            proof {
                assert(ok == forall|i: int| 0 <= i < 4 ==> def_safe(#[trigger] sl.0[i])) by {
                    if !ok {
                        if !def_safe(sl.0[0]) {
                            assert(!def_safe(sl.0[0]));
                        }
                    }
                    if ok {
                        assert forall|i: int| 0 <= i < 4 implies def_safe(#[trigger] sl.0[i]) by {
                            if i == 0 {
                            } else if i == 1 {
                            } else if i == 2 {
                            } else {
                            }
                        }
                    }
                }
            }
            ok
        },
        None => true,
    };
    let projectile_ok = match c.projectile {
        Some(p) => p.damage >= 0,
        None => true,
    };
    health_ok && attack_ok && abilities_ok && projectile_ok
}

impl SimWorld {
    /// Whether the next tick stays within bounds: no entity with negative
    /// health, negative or too large auto-attack damage, or an ability or
    /// projectile with negative damage; no negative damage queued; and room
    /// for one new id per entity. A tick that passes never overflows, on any
    /// inputs; one that fails may (and then `run_tick` cannot be called).
    pub fn tick_fits(&self, inputs: &[InputEvent]) -> (r: bool)
        ensures
            r == (slots_safe(self.world.view()) && damage_safe(self.events.damage.view())
                && self.world.next() + self.world.view().len() < u32::MAX),
            r ==> forall|s2: Seq<Slot>|
                #[trigger] paths_rel(&self.nav_grid, inputs_applied(self.world.view(), inputs@), s2)
                    ==> tick_after_paths(
                    s2,
                    self.world.next(),
                    self.rng.state,
                    self.events.damage.view(),
                    self.events.deaths.view(),
                ).3,
    {
        let n = self.world.slots.len();
        if n >= (u32::MAX - self.world.next_id) as usize {
            return false;
        }
        let mut i: usize = 0;
        while i < n
            invariant
                n == self.world.slots@.len(),
                i <= n,
                forall|k: int| 0 <= k < i ==> comps_safe(#[trigger] self.world.slots@[k].comps),
            decreases n - i,
        {
            if !comps_within_bounds(&self.world.slots[i].comps) {
                return false;
            }
            i = i + 1;
        }
        let m = self.events.damage.events.len();
        let mut j: usize = 0;
        while j < m
            invariant
                m == self.events.damage.events@.len(),
                j <= m,
                forall|k: int| 0 <= k < j ==> (#[trigger] self.events.damage.events@[k]).amount >= 0,
            decreases m - j,
        {
            if self.events.damage.events[j].amount < 0 {
                return false;
            }
            j = j + 1;
        }
        proof {
            lemma_tick_safe(
                &self.nav_grid,
                self.world.view(),
                inputs@,
                self.world.next(),
                self.rng.state,
                self.events.damage.view(),
                self.events.deaths.view(),
            );
        }
        true
    }
}

} // verus!
