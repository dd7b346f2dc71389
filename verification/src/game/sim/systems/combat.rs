//! Combat systems: auto-attack, damage, death.
use vstd::prelude::*;

use crate::game::base::ecs::{Components, Entity, Slot, World, has_entity, slots_wf};
use crate::game::base::events::{DamageEvent, DeathEvent, EventBus};
use crate::game::base::types::{Fixed, Vec2Fixed, fx_mul, v_dist_sq};
use crate::game::sim::components::{AttackCooldown, Dying, Health, health_after_damage};
use crate::game::sim::rng::{DeterministicRng, lcg_output, lcg_step};
use crate::game::sim::systems::movement::{lemma_map_comps_wf, map_comps};

verus! {

// ─── Cooldowns ──────────────────────────────────────────────────────────────
pub open spec fn cooldown_comps(c: Components) -> Components {
    match c.attack_cooldown {
        Some(cd) => if cd.0 > 0 {
            Components { attack_cooldown: Some(AttackCooldown((cd.0 - 1) as u32)), ..c }
        } else {
            c
        },
        None => c,
    }
}

fn cooldown_entity(c: &mut Components)
    ensures
        *final(c) == cooldown_comps(*old(c)),
{
    match c.attack_cooldown {
        Some(cd) => {
            if cd.0 > 0 {
                c.attack_cooldown = Some(AttackCooldown(cd.0 - 1));
            }
        },
        None => {},
    }
}

/// Counts auto-attack cooldowns down by one tick.
pub fn cooldown_system(world: &mut World)
    requires
        old(world).wf(),
    ensures
        final(world).wf(),
        final(world).next() == old(world).next(),
        final(world).view() == map_comps(old(world).view(), |c: Components| cooldown_comps(c)),
{
    let ghost old_slots = world.slots@;
    let mut i: usize = 0;
    while i < world.slots.len()
        invariant
            i <= world.slots@.len(),
            world.slots@.len() == old_slots.len(),
            world.next_id == old(world).next_id,
            slots_wf(old_slots, world.next_id),
            forall|k: int|
                0 <= k < i ==> #[trigger] world.slots@[k] == (Slot {
                    entity: old_slots[k].entity,
                    comps: cooldown_comps(old_slots[k].comps),
                }),
            forall|k: int| i <= k < world.slots@.len() ==> #[trigger] world.slots@[k] == old_slots[k],
        decreases world.slots@.len() - i,
    {
        cooldown_entity(&mut world.slots[i].comps);
        i = i + 1;
    }
    proof {
        let f = |c: Components| cooldown_comps(c);
        lemma_map_comps_wf(old_slots, f, world.next_id);
        assert(world.slots@ =~= map_comps(old_slots, f));
    }
}

// ─── Auto-attack ────────────────────────────────────────────────────────────
/// A potential target as seen at the start of the auto-attack pass:
/// entity, x, y, team, current hit points.
pub type TargetInfo = (Entity, Fixed, Fixed, u8, i32);

/// Every entity with position, team and health, in entity order.
pub open spec fn attack_targets(s: Seq<Slot>) -> Seq<TargetInfo>
    decreases s.len(),
{
    if s.len() == 0 {
        Seq::empty()
    } else {
        let prev = attack_targets(s.drop_last());
        let c = s.last().comps;
        match (c.position, c.team, c.health) {
            (Some(p), Some(t), Some(h)) => prev.push((s.last().entity, p.0.x, p.0.y, t.0, h.current)),
            _ => prev,
        }
    }
}

/// An enemy of `team`, alive, not the attacker, within range.
pub open spec fn attackable(
    t: TargetInfo,
    attacker: Entity,
    pos: Vec2Fixed,
    team: u8,
    range_sq: Fixed,
) -> bool {
    &&& t.3 != team
    &&& t.4 > 0
    &&& t.0 != attacker
    &&& v_dist_sq(pos, Vec2Fixed { x: t.1, y: t.2 }).bits <= range_sq.bits
}

/// Lower hit points first, then lower entity id.
pub open spec fn weaker(a: TargetInfo, b: TargetInfo) -> bool {
    a.4 < b.4 || (a.4 == b.4 && a.0.id < b.0.id)
}

/// The weakest attackable target among the first `n` candidates.
pub open spec fn weakest_target(
    ts: Seq<TargetInfo>,
    n: int,
    attacker: Entity,
    pos: Vec2Fixed,
    team: u8,
    range_sq: Fixed,
) -> Option<TargetInfo>
    decreases n,
{
    if n <= 0 {
        None
    } else {
        let prev = weakest_target(ts, n - 1, attacker, pos, team, range_sq);
        let t = ts[n - 1];
        if attackable(t, attacker, pos, team, range_sq) && (prev is None || weaker(t, prev->0)) {
            Some(t)
        } else {
            prev
        }
    }
}

#[verifier::opaque]
/// One entity's auto-attack: its new components, the RNG state after it, the
/// damage it emits, and whether doubling a critical hit stays in range.
pub open spec fn attack_step(c: Components, e: Entity, ts: Seq<TargetInfo>, rng: u64) -> (
    Components,
    u64,
    Seq<DamageEvent>,
    bool,
) {
    if c.position is Some && c.team is Some && c.attack_range is Some && c.attack_damage is Some
        && c.attack_speed is Some && c.attack_cooldown is Some && c.crit_chance is Some {
        let p = c.position->0;
        let t = c.team->0;
        let r = c.attack_range->0;
        let d = c.attack_damage->0;
        let sp = c.attack_speed->0;
        let cd = c.attack_cooldown->0;
        let cr = c.crit_chance->0;
        if cd.0 > 0 {
            (c, rng, Seq::empty(), true)
        } else {
            match weakest_target(ts, ts.len() as int, e, p.0, t.0, fx_mul(r.0, r.0)) {
                None => (c, rng, Seq::empty(), true),
                Some(tgt) => {
                    let r2 = lcg_step(rng);
                    let crit = lcg_output(r2) % 100 < cr.0;
                    let amount = if crit { d.0 * 2 } else { d.0 as int };
                    (
                        Components { attack_cooldown: Some(AttackCooldown(sp.0)), ..c },
                        r2,
                        seq![DamageEvent { source: e, target: tgt.0, amount: amount as i32 }],
                        i32::MIN <= amount <= i32::MAX,
                    )
                },
            }
        }
    } else {
        (c, rng, Seq::empty(), true)
    }
}

/// Auto-attacks of the first `n` entities, in entity order.
pub open spec fn attack_fold(s: Seq<Slot>, ts: Seq<TargetInfo>, n: int, rng: u64) -> (
    Seq<Slot>,
    u64,
    Seq<DamageEvent>,
    bool,
)
    decreases n,
{
    if n <= 0 {
        (Seq::empty(), rng, Seq::empty(), true)
    } else {
        let prev = attack_fold(s, ts, n - 1, rng);
        let st = attack_step(s[n - 1].comps, s[n - 1].entity, ts, prev.1);
        (prev.0.push(Slot { entity: s[n - 1].entity, comps: st.0 }), st.1, prev.2 + st.2, prev.3
            && st.3)
    }
}

fn weakest(
    targets: &Vec<TargetInfo>,
    attacker: Entity,
    pos: Vec2Fixed,
    team: u8,
    range_sq: Fixed,
) -> (r: Option<TargetInfo>)
    ensures
        r == weakest_target(targets@, targets@.len() as int, attacker, pos, team, range_sq),
{
    let mut best: Option<TargetInfo> = None;
    let mut j: usize = 0;
    while j < targets.len()
        invariant
            j <= targets@.len(),
            best == weakest_target(targets@, j as int, attacker, pos, team, range_sq),
        decreases targets@.len() - j,
    {
        let t = targets[j];
        let tpos = Vec2Fixed { x: t.1, y: t.2 };
        let ok = t.3 != team && t.4 > 0 && t.0 != attacker && pos.dist_sq(tpos).bits
            <= range_sq.bits;
        if ok {
            let better = match best {
                None => true,
                Some(b) => t.4 < b.4 || (t.4 == b.4 && t.0.id < b.0.id),
            };
            if better {
                best = Some(t);
            }
        }
        j = j + 1;
    }
    best
}

fn attack_entity(
    c: &mut Components,
    e: Entity,
    targets: &Vec<TargetInfo>,
    rng: &mut DeterministicRng,
) -> (r: Option<DamageEvent>)
    requires
        attack_step(*old(c), e, targets@, old(rng).state).3,
    ensures
        *final(c) == attack_step(*old(c), e, targets@, old(rng).state).0,
        final(rng).state == attack_step(*old(c), e, targets@, old(rng).state).1,
        (match r {
            Some(ev) => seq![ev],
            None => Seq::<DamageEvent>::empty(),
        }) == attack_step(*old(c), e, targets@, old(rng).state).2,
{
    proof {
        reveal(attack_step);
    }
    if c.position.is_none() || c.team.is_none() || c.attack_range.is_none()
        || c.attack_damage.is_none() || c.attack_speed.is_none() || c.attack_cooldown.is_none()
        || c.crit_chance.is_none() {
        return None;
    }
    let p = c.position.unwrap();
    let t = c.team.unwrap();
    let r = c.attack_range.unwrap();
    let d = c.attack_damage.unwrap();
    let sp = c.attack_speed.unwrap();
    let cd = c.attack_cooldown.unwrap();
    let cr = c.crit_chance.unwrap();
    if cd.0 > 0 {
        return None;
    }
    let range_sq = r.0 * r.0;
    match weakest(targets, e, p.0, t.0, range_sq) {
        None => None,
        Some(tgt) => {
            let is_crit = rng.next_bool_pct(cr.0);
            let amount = if is_crit { d.0 * 2 } else { d.0 };
            c.attack_cooldown = Some(AttackCooldown(sp.0));
            Some(DamageEvent { source: e, target: tgt.0, amount })
        },
    }
}

fn collect_targets(world: &World) -> (r: Vec<TargetInfo>)
    ensures
        r@ == attack_targets(world.view()),
{
    let mut out: Vec<TargetInfo> = Vec::new();
    let mut i: usize = 0;
    while i < world.slots.len()
        invariant
            i <= world.slots@.len(),
            out@ == attack_targets(world.slots@.take(i as int)),
        decreases world.slots@.len() - i,
    {
        proof {
            assert(world.slots@.take(i + 1).drop_last() =~= world.slots@.take(i as int));
        }
        let c = &world.slots[i].comps;
        match (c.position, c.team, c.health) {
            (Some(p), Some(t), Some(h)) => {
                out.push((world.slots[i].entity, p.0.x, p.0.y, t.0, h.current));
            },
            _ => {},
        }
        i = i + 1;
    }
    proof {
        assert(world.slots@.take(world.slots@.len() as int) =~= world.slots@);
    }
    out
}

/// Auto-attack: every ready attacker hits the weakest enemy in range (lowest
/// hit points, then lowest entity id), as the targets stood when the pass
/// began. A critical hit, rolled on the shared RNG, doubles the damage; the
/// attack puts the attacker on cooldown.
///
/// Doubling a critical hit outside the `i32` range would overflow, so that
/// input is excluded.
#[verifier::rlimit(60)]
pub fn auto_attack_system(world: &mut World, rng: &mut DeterministicRng, events: &mut EventBus)
    requires
        old(world).wf(),
        attack_fold(
            old(world).view(),
            attack_targets(old(world).view()),
            old(world).view().len() as int,
            old(rng).state,
        ).3,
    ensures
        final(world).wf(),
        final(world).next() == old(world).next(),
        ({
            let f = attack_fold(
                old(world).view(),
                attack_targets(old(world).view()),
                old(world).view().len() as int,
                old(rng).state,
            );
            &&& final(world).view() == f.0
            &&& final(rng).state == f.1
            &&& final(events).damage.view() == old(events).damage.view() + f.2
        }),
        final(events).deaths == old(events).deaths,
        final(events).buffs == old(events).buffs,
        final(events).abilities == old(events).abilities,
{
    let targets = collect_targets(world);
    let ghost old_slots = world.slots@;
    let ghost ts = targets@;
    let ghost rng0 = rng.state;
    let ghost dmg0 = events.damage.view();
    proof {
        lemma_attack_fold_ok_prefix(old_slots, ts, old_slots.len() as int, rng0);
    }
    let mut i: usize = 0;
    while i < world.slots.len()
        invariant
            i <= world.slots@.len(),
            world.slots@.len() == old_slots.len(),
            world.next_id == old(world).next_id,
            ts == targets@,
            forall|n: int| 0 <= n <= old_slots.len() ==> #[trigger] attack_fold(old_slots, ts, n, rng0).3,
            world.slots@ == attack_fold(old_slots, ts, i as int, rng0).0 + old_slots.skip(i as int),
            rng.state == attack_fold(old_slots, ts, i as int, rng0).1,
            events.damage.view() == dmg0 + attack_fold(old_slots, ts, i as int, rng0).2,
            events.deaths == old(events).deaths,
            events.buffs == old(events).buffs,
            events.abilities == old(events).abilities,
        decreases world.slots@.len() - i,
    {
        let e = world.slots[i].entity;
        let ghost prev = attack_fold(old_slots, ts, i as int, rng0);
        proof {
            lemma_attack_fold_len(old_slots, ts, i as int, rng0);
            assert(world.slots@[i as int] == old_slots[i as int]);
            assert(attack_fold(old_slots, ts, i + 1, rng0).3);
        }
        let r = attack_entity(&mut world.slots[i].comps, e, &targets, rng);
        match r {
            Some(ev) => {
                events.damage.emit(ev);
            },
            None => {},
        }
        proof {
            let st = attack_step(old_slots[i as int].comps, e, ts, prev.1);
            assert(events.damage.view() =~= dmg0 + attack_fold(old_slots, ts, i + 1, rng0).2);
            assert(world.slots@ =~= attack_fold(old_slots, ts, i + 1, rng0).0 + old_slots.skip(i + 1));
        }
        i = i + 1;
    }
    proof {
        lemma_attack_fold_entities(old_slots, ts, old_slots.len() as int, rng0);
        assert(world.slots@ =~= attack_fold(old_slots, ts, old_slots.len() as int, rng0).0);
        assert(slots_wf(world.slots@, world.next_id)) by {
            assert forall|a: int, b: int| 0 <= a < b < world.slots@.len() implies world.slots@[a].entity.id
                < world.slots@[b].entity.id by {
                assert(world.slots@[a].entity == old_slots[a].entity);
                assert(world.slots@[b].entity == old_slots[b].entity);
            }
            assert forall|a: int| 0 <= a < world.slots@.len() implies world.slots@[a].entity.id
                < world.next_id by {
                assert(world.slots@[a].entity == old_slots[a].entity);
            }
        }
    }
}

proof fn lemma_attack_fold_len(s: Seq<Slot>, ts: Seq<TargetInfo>, n: int, rng: u64)
    requires
        0 <= n,
    ensures
        attack_fold(s, ts, n, rng).0.len() == n,
    decreases n,
{
    if n > 0 {
        lemma_attack_fold_len(s, ts, n - 1, rng);
    }
}

proof fn lemma_attack_fold_ok_prefix(s: Seq<Slot>, ts: Seq<TargetInfo>, n: int, rng: u64)
    requires
        attack_fold(s, ts, n, rng).3,
    ensures
        forall|m: int| 0 <= m <= n ==> #[trigger] attack_fold(s, ts, m, rng).3,
    decreases n,
{
    if n > 0 {
        lemma_attack_fold_ok_prefix(s, ts, n - 1, rng);
    }
}

proof fn lemma_attack_fold_entities(s: Seq<Slot>, ts: Seq<TargetInfo>, n: int, rng: u64)
    requires
        0 <= n <= s.len(),
    ensures
        attack_fold(s, ts, n, rng).0.len() == n,
        forall|k: int| 0 <= k < n ==> #[trigger] attack_fold(s, ts, n, rng).0[k].entity == s[k].entity,
    decreases n,
{
    if n > 0 {
        lemma_attack_fold_entities(s, ts, n - 1, rng);
    }
}

// ─── Damage and death ───────────────────────────────────────────────────────
/// Applying one damage event: the target's health drops (clamped at zero);
/// a target left at zero or below is reported dead. Also whether the
/// subtraction stays in the `i32` range.
pub open spec fn damage_step(s: Seq<Slot>, ev: DamageEvent) -> (Seq<Slot>, Seq<DeathEvent>, bool) {
    if exists|i: int| 0 <= i < s.len() && s[i].entity == ev.target && s[i].comps.health is Some {
        let i = choose|i: int|
            0 <= i < s.len() && s[i].entity == ev.target && s[i].comps.health is Some;
        let h = s[i].comps.health->0;
        let nh = health_after_damage(h, ev.amount);
        (
            s.update(i, Slot { entity: s[i].entity, comps: Components { health: Some(nh), ..s[i].comps } }),
            if nh.current <= 0 {
                seq![DeathEvent { entity: ev.target, killer: ev.source }]
            } else {
                Seq::empty()
            },
            i32::MIN <= h.current - ev.amount <= i32::MAX,
        )
    } else {
        (s, Seq::empty(), true)
    }
}

/// Applying the first `n` damage events in order.
pub open spec fn damage_fold(s: Seq<Slot>, evs: Seq<DamageEvent>, n: int) -> (
    Seq<Slot>,
    Seq<DeathEvent>,
    bool,
)
    decreases n,
{
    if n <= 0 {
        (s, Seq::empty(), true)
    } else {
        let prev = damage_fold(s, evs, n - 1);
        let st = damage_step(prev.0, evs[n - 1]);
        (st.0, prev.1 + st.1, prev.2 && st.2)
    }
}

proof fn lemma_damage_fold_shape(s: Seq<Slot>, evs: Seq<DamageEvent>, n: int, next: u32)
    requires
        slots_wf(s, next),
    ensures
        damage_fold(s, evs, n).0.len() == s.len(),
        forall|k: int| 0 <= k < s.len() ==> #[trigger] damage_fold(s, evs, n).0[k].entity == s[k].entity,
        slots_wf(damage_fold(s, evs, n).0, next),
    decreases n,
{
    if n > 0 {
        lemma_damage_fold_shape(s, evs, n - 1, next);
    }
}

proof fn lemma_damage_fold_ok_prefix(s: Seq<Slot>, evs: Seq<DamageEvent>, n: int)
    requires
        damage_fold(s, evs, n).2,
    ensures
        forall|m: int| 0 <= m <= n ==> #[trigger] damage_fold(s, evs, m).2,
    decreases n,
{
    if n > 0 {
        lemma_damage_fold_ok_prefix(s, evs, n - 1);
    }
}

/// Applies every pending damage event in order, emptying the damage queue,
/// and emits a death event for each hit that leaves its target at zero.
///
/// A subtraction outside the `i32` range would overflow, so that input is
/// excluded.
pub fn health_system(world: &mut World, events: &mut EventBus)
    requires
        old(world).wf(),
        damage_fold(
            old(world).view(),
            old(events).damage.view(),
            old(events).damage.view().len() as int,
        ).2,
    ensures
        final(world).wf(),
        final(world).next() == old(world).next(),
        ({
            let f = damage_fold(
                old(world).view(),
                old(events).damage.view(),
                old(events).damage.view().len() as int,
            );
            &&& final(world).view() == f.0
            &&& final(events).deaths.view() == old(events).deaths.view() + f.1
        }),
        final(events).damage.view().len() == 0,
        final(events).buffs == old(events).buffs,
        final(events).abilities == old(events).abilities,
{
    let ghost old_slots = world.slots@;
    let ghost deaths0 = events.deaths.view();
    let damage_events = events.damage.drain();
    let ghost evs = damage_events@;
    proof {
        lemma_damage_fold_ok_prefix(old_slots, evs, evs.len() as int);
    }
    let mut j: usize = 0;
    while j < damage_events.len()
        invariant
            j <= damage_events@.len(),
            evs == damage_events@,
            world.next_id == old(world).next_id,
            slots_wf(old_slots, world.next_id),
            forall|m: int| 0 <= m <= evs.len() ==> #[trigger] damage_fold(old_slots, evs, m).2,
            world.slots@ == damage_fold(old_slots, evs, j as int).0,
            events.deaths.view() == deaths0 + damage_fold(old_slots, evs, j as int).1,
            events.damage.view().len() == 0,
            events.buffs == old(events).buffs,
            events.abilities == old(events).abilities,
        decreases damage_events@.len() - j,
    {
        let ev = damage_events[j];
        proof {
            lemma_damage_fold_shape(old_slots, evs, j as int, world.next_id);
            assert(damage_fold(old_slots, evs, j + 1).2);
        }
        let ghost before = world.slots@;
        match world.find(ev.target) {
            Some(i) => {
                match world.slots[i].comps.health {
                    Some(h) => {
                        proof {
                            assert(before[i as int].entity == ev.target);
                            let k = choose|k: int|
                                0 <= k < before.len() && before[k].entity == ev.target
                                    && before[k].comps.health is Some;
                            assert(k == i as int) by {
                                if k < i as int {
                                } else if k > i as int {
                                }
                            }
                        }
                        let mut nh = h;
                        nh.apply_damage(ev.amount);
                        world.slots[i].comps.health = Some(nh);
                        if nh.is_dead() {
                            events.deaths.emit(DeathEvent { entity: ev.target, killer: ev.source });
                        }
                        proof {
                            assert(world.slots@ =~= damage_fold(old_slots, evs, j + 1).0);
                            assert(events.deaths.view() =~= deaths0 + damage_fold(old_slots, evs, j + 1).1);
                        }
                    },
                    None => {
                        proof {
                            assert(before[i as int].entity == ev.target);
                            assert(!(exists|k: int|
                                0 <= k < before.len() && before[k].entity == ev.target
                                    && before[k].comps.health is Some)) by {
                                if exists|k: int|
                                    0 <= k < before.len() && before[k].entity == ev.target
                                        && before[k].comps.health is Some {
                                    let k = choose|k: int|
                                        0 <= k < before.len() && before[k].entity == ev.target
                                            && before[k].comps.health is Some;
                                    if k < i as int {
                                    } else if k > i as int {
                                    }
                                }
                            }
                            assert(events.deaths.view() =~= deaths0 + damage_fold(old_slots, evs, j + 1).1);
                        }
                    },
                }
            },
            None => {
                proof {
                    assert(events.deaths.view() =~= deaths0 + damage_fold(old_slots, evs, j + 1).1);
                }
            },
        }
        j = j + 1;
    }
    proof {
        lemma_damage_fold_shape(old_slots, evs, evs.len() as int, world.next_id);
    }
}

/// The world after marking every entity named by a death event as dying.
pub open spec fn mark_dying(s: Seq<Slot>, deaths: Seq<DeathEvent>) -> Seq<Slot> {
    s.map_values(
        |x: Slot|
            if exists|k: int| 0 <= k < deaths.len() && deaths[k].entity == x.entity {
                Slot { entity: x.entity, comps: Components { dying: Some(Dying), ..x.comps } }
            } else {
                x
            },
    )
}

/// Marks every entity reported dead with `Dying`, emptying the death queue.
pub fn death_system(world: &mut World, events: &mut EventBus)
    requires
        old(world).wf(),
    ensures
        final(world).wf(),
        final(world).next() == old(world).next(),
        final(world).view() == mark_dying(old(world).view(), old(events).deaths.view()),
        final(events).deaths.view().len() == 0,
        final(events).damage == old(events).damage,
        final(events).buffs == old(events).buffs,
        final(events).abilities == old(events).abilities,
{
    let ghost old_slots = world.slots@;
    let death_events = events.deaths.drain();
    let mut j: usize = 0;
    while j < death_events.len()
        invariant
            j <= death_events@.len(),
            world.next_id == old(world).next_id,
            slots_wf(old_slots, world.next_id),
            world.slots@ == mark_dying(old_slots, death_events@.take(j as int)),
            events.deaths.view().len() == 0,
            events.damage == old(events).damage,
            events.buffs == old(events).buffs,
            events.abilities == old(events).abilities,
        decreases death_events@.len() - j,
    {
        let ev = death_events[j];
        let ghost before = world.slots@;
        match world.find(ev.entity) {
            Some(i) => {
                world.slots[i].comps.dying = Some(Dying);
                proof {
                    let d1 = death_events@.take(j + 1);
                    assert(d1[j as int] == ev);
                    assert forall|x: int| 0 <= x < before.len() implies #[trigger] world.slots@[x]
                        == mark_dying(old_slots, d1)[x] by {
                        let d0 = death_events@.take(j as int);
                        if old_slots[x].entity == ev.entity {
                            assert(x == i as int) by {
                                if x < i as int {
                                } else if x > i as int {
                                }
                            }
                        } else {
                            assert((exists|k: int| 0 <= k < d1.len() && d1[k].entity == old_slots[x].entity)
                                == (exists|k: int| 0 <= k < d0.len() && d0[k].entity == old_slots[x].entity)) by {
                                if exists|k: int| 0 <= k < d1.len() && d1[k].entity == old_slots[x].entity {
                                    let k = choose|k: int| 0 <= k < d1.len() && d1[k].entity == old_slots[x].entity;
                                    assert(d0[k] == d1[k]);
                                }
                                if exists|k: int| 0 <= k < d0.len() && d0[k].entity == old_slots[x].entity {
                                    let k = choose|k: int| 0 <= k < d0.len() && d0[k].entity == old_slots[x].entity;
                                    assert(d0[k] == d1[k]);
                                }
                            }
                        }
                    }
                    assert(world.slots@ =~= mark_dying(old_slots, d1));
                }
            },
            None => {
                proof {
                    let d1 = death_events@.take(j + 1);
                    let d0 = death_events@.take(j as int);
                    assert forall|x: int| 0 <= x < before.len() implies #[trigger] before[x]
                        == mark_dying(old_slots, d1)[x] by {
                        assert(old_slots[x].entity != ev.entity) by {
                            if old_slots[x].entity == ev.entity {
                                assert(before[x].entity == ev.entity);
                                assert(has_entity(before, ev.entity));
                            }
                        }
                        assert((exists|k: int| 0 <= k < d1.len() && d1[k].entity == old_slots[x].entity)
                            == (exists|k: int| 0 <= k < d0.len() && d0[k].entity == old_slots[x].entity)) by {
                            if exists|k: int| 0 <= k < d1.len() && d1[k].entity == old_slots[x].entity {
                                let k = choose|k: int| 0 <= k < d1.len() && d1[k].entity == old_slots[x].entity;
                                assert(d0[k] == d1[k]);
                            }
                            if exists|k: int| 0 <= k < d0.len() && d0[k].entity == old_slots[x].entity {
                                let k = choose|k: int| 0 <= k < d0.len() && d0[k].entity == old_slots[x].entity;
                                assert(d0[k] == d1[k]);
                            }
                        }
                    }
                    assert(world.slots@ =~= mark_dying(old_slots, d1));
                }
            },
        }
        j = j + 1;
    }
    proof {
        assert(death_events@.take(death_events@.len() as int) =~= death_events@);
    }
}

/// The slots that survive the cleanup: those not marked `Dying`.
pub open spec fn remove_dying(s: Seq<Slot>) -> Seq<Slot>
    decreases s.len(),
{
    if s.len() == 0 {
        s
    } else {
        let prev = remove_dying(s.drop_last());
        if s.last().comps.dying is Some {
            prev
        } else {
            prev.push(s.last())
        }
    }
}

/// Removes every entity marked `Dying`.
pub fn cleanup_system(world: &mut World)
    requires
        old(world).wf(),
    ensures
        final(world).wf(),
        final(world).next() == old(world).next(),
        final(world).view() == remove_dying(old(world).view()),
{
    let ghost old_slots = world.slots@;
    let mut rest: Vec<Slot> = Vec::new();
    std::mem::swap(&mut rest, &mut world.slots);
    let n = rest.len();
    let mut kept: Vec<Slot> = Vec::new();
    let mut i: usize = 0;
    while i < n
        invariant
            i <= n,
            n == old_slots.len(),
            rest@ == old_slots.skip(i as int),
            slots_wf(old_slots, world.next_id),
            world.next_id == old(world).next_id,
            kept@ == remove_dying(old_slots.take(i as int)),
            slots_wf(kept@, world.next_id),
            kept@.len() > 0 ==> exists|j: int| 0 <= j < i && kept@.last() == old_slots[j],
        decreases n - i,
    {
        proof {
            assert(old_slots.take(i + 1).drop_last() =~= old_slots.take(i as int));
        }
        let s = rest.remove(0);
        proof {
            assert(s == old_slots[i as int]);
            assert(rest@ =~= old_slots.skip(i + 1));
        }
        if s.comps.dying.is_none() {
            let ghost before = kept@;
            kept.push(s);
            proof {
                if before.len() > 0 {
                    let j = choose|j: int| 0 <= j < i && before.last() == old_slots[j];
                    assert(before.last().entity.id < s.entity.id);
                }
                assert forall|a: int, b: int| 0 <= a < b < kept@.len() implies kept@[a].entity.id
                    < kept@[b].entity.id by {
                    if b == kept@.len() - 1 && a < b {
                        if a < before.len() - 1 {
                            assert(before[a].entity.id < before.last().entity.id);
                        }
                    }
                }
            }
        }
        i = i + 1;
    }
    proof {
        assert(old_slots.take(old_slots.len() as int) =~= old_slots);
    }
    world.slots = kept;
}


/// The auto-attack target is the weakest enemy: `weakest_target` gives an
/// attackable candidate with no more hit points than any other attackable
/// one, and of those as weak, the one with the lowest id; it gives nothing
/// exactly when no candidate is attackable.
pub proof fn law_weakest_target_is_weakest(
    ts: Seq<TargetInfo>,
    n: int,
    attacker: Entity,
    pos: Vec2Fixed,
    team: u8,
    range_sq: Fixed,
)
    requires
        0 <= n <= ts.len(),
    ensures
        ({
            let r = weakest_target(ts, n, attacker, pos, team, range_sq);
            &&& r is None <==> forall|j: int|
                0 <= j < n ==> !attackable(#[trigger] ts[j], attacker, pos, team, range_sq)
            &&& r matches Some(t) ==> {
                &&& exists|i: int| 0 <= i < n && ts[i] == t
                &&& attackable(t, attacker, pos, team, range_sq)
                &&& forall|j: int|
                    0 <= j < n && attackable(#[trigger] ts[j], attacker, pos, team, range_sq) ==> t.4
                        < ts[j].4 || (t.4 == ts[j].4 && t.0.id <= ts[j].0.id)
            }
        }),
    decreases n,
{
    if n > 0 {
        law_weakest_target_is_weakest(ts, n - 1, attacker, pos, team, range_sq);
        let prev = weakest_target(ts, n - 1, attacker, pos, team, range_sq);
        let r = weakest_target(ts, n, attacker, pos, team, range_sq);
        if r is Some && r == prev {
            let p = prev->0;
            let i = choose|i: int| 0 <= i < n - 1 && ts[i] == p;
            assert(ts[i] == p);
        }
        if r is Some && r != prev {
            assert(ts[n - 1] == r->0);
        }
    }
}


/// The entity of slot `j` is alive, of another team than `team`, not the
/// attacker, and within `range` of `pos`.
pub open spec fn living_enemy_in_range(
    s: Seq<Slot>,
    j: int,
    attacker: Entity,
    pos: Vec2Fixed,
    team: u8,
    range: Fixed,
) -> bool {
    let c = s[j].comps;
    &&& 0 <= j < s.len()
    &&& c.position is Some
    &&& c.team is Some
    &&& c.health is Some
    &&& (c.team->0).0 != team
    &&& (c.health->0).current > 0
    &&& s[j].entity != attacker
    &&& v_dist_sq(pos, (c.position->0).0).bits <= fx_mul(range, range).bits
}

/// `e` is the weakest living enemy in range: one of them, and no other has
/// fewer hit points, nor as many with a lower id.
pub open spec fn is_weakest_enemy(
    s: Seq<Slot>,
    attacker: Entity,
    pos: Vec2Fixed,
    team: u8,
    range: Fixed,
    e: Entity,
) -> bool {
    exists|b: int|
        #![trigger living_enemy_in_range(s, b, attacker, pos, team, range)]
        living_enemy_in_range(s, b, attacker, pos, team, range) && s[b].entity == e && forall|j: int|
            #![trigger living_enemy_in_range(s, j, attacker, pos, team, range)]
            living_enemy_in_range(s, j, attacker, pos, team, range) ==> (s[b].comps.health->0).current
                < (s[j].comps.health->0).current || ((s[b].comps.health->0).current == (
            s[j].comps.health->0).current && e.id <= s[j].entity.id)
}

/// No living enemy is in range.
pub open spec fn no_enemy_in_range(s: Seq<Slot>, attacker: Entity, pos: Vec2Fixed, team: u8, range: Fixed) -> bool {
    forall|j: int|
        #![trigger living_enemy_in_range(s, j, attacker, pos, team, range)]
        !living_enemy_in_range(s, j, attacker, pos, team, range)
}

/// The target record of slot `i`.
pub open spec fn target_info_of(x: Slot) -> TargetInfo {
    let c = x.comps;
    (x.entity, (c.position->0).0.x, (c.position->0).0.y, (c.team->0).0, (c.health->0).current)
}

proof fn lemma_attack_targets_sound(s: Seq<Slot>, k: int)
    requires
        0 <= k < attack_targets(s).len(),
    ensures
        exists|i: int|
            0 <= i < s.len() && s[i].comps.position is Some && s[i].comps.team is Some
                && s[i].comps.health is Some && attack_targets(s)[k] == #[trigger] target_info_of(s[i]),
    decreases s.len(),
{
    let t = s.drop_last();
    let prev = attack_targets(t);
    if k < prev.len() {
        lemma_attack_targets_sound(t, k);
        let i = choose|i: int|
            0 <= i < t.len() && t[i].comps.position is Some && t[i].comps.team is Some
                && t[i].comps.health is Some && prev[k] == #[trigger] target_info_of(t[i]);
        assert(t[i] == s[i]);
        assert(attack_targets(s)[k] == prev[k]);
        assert(attack_targets(s)[k] == target_info_of(s[i]));
    } else {
        assert(s[s.len() - 1] == s.last());
        assert(attack_targets(s)[k] == target_info_of(s[s.len() - 1]));
    }
}

proof fn lemma_attack_targets_complete(s: Seq<Slot>, i: int)
    requires
        0 <= i < s.len(),
        s[i].comps.position is Some,
        s[i].comps.team is Some,
        s[i].comps.health is Some,
    ensures
        exists|k: int| 0 <= k < attack_targets(s).len() && attack_targets(s)[k] == #[trigger] target_info_of(s[i]),
    decreases s.len(),
{
    let t = s.drop_last();
    let prev = attack_targets(t);
    if i < s.len() - 1 {
        assert(t[i] == s[i]);
        lemma_attack_targets_complete(t, i);
        let k = choose|k: int| 0 <= k < prev.len() && prev[k] == #[trigger] target_info_of(t[i]);
        assert(attack_targets(s)[k] == prev[k]);
    } else {
        assert(s[i] == s.last());
        assert(attack_targets(s)[prev.len() as int] == target_info_of(s[i]));
    }
}

/// A target record is attackable exactly when its slot holds a living enemy
/// in range.
proof fn lemma_attackable_slot(s: Seq<Slot>, i: int, attacker: Entity, pos: Vec2Fixed, team: u8, range: Fixed)
    requires
        0 <= i < s.len(),
        s[i].comps.position is Some,
        s[i].comps.team is Some,
        s[i].comps.health is Some,
    ensures
        attackable(target_info_of(s[i]), attacker, pos, team, fx_mul(range, range)) == living_enemy_in_range(
            s,
            i,
            attacker,
            pos,
            team,
            range,
        ),
{
    let p = (s[i].comps.position->0).0;
    assert(Vec2Fixed { x: p.x, y: p.y } == p);
}

/// An auto-attack targets the weakest living enemy in range (fewest hit
/// points, ties to the lower id), never an ally, the attacker itself, a
/// dead entity or one out of range; it comes from the attacker; and an
/// attacker that is ready attacks exactly when some living enemy is in
/// range.
pub proof fn law_attack_step_targets_weakest_enemy(s: Seq<Slot>, k: int, rng: u64)
    requires
        0 <= k < s.len(),
    ensures
        ({
            let c = s[k].comps;
            let e = s[k].entity;
            let st = attack_step(c, e, attack_targets(s), rng);
            &&& st.2.len() <= 1
            &&& forall|m: int|
                0 <= m < st.2.len() ==> (#[trigger] st.2[m]).source == e && c.position is Some && c.team is Some
                    && c.attack_range is Some && is_weakest_enemy(
                    s,
                    e,
                    (c.position->0).0,
                    (c.team->0).0,
                    (c.attack_range->0).0,
                    st.2[m].target,
                )
            &&& (c.position is Some && c.team is Some && c.attack_range is Some && c.attack_damage is Some
                && c.attack_speed is Some && c.attack_cooldown is Some && c.crit_chance is Some && (
            c.attack_cooldown->0).0 == 0) ==> (st.2.len() == 0 <==> no_enemy_in_range(
                s,
                e,
                (c.position->0).0,
                (c.team->0).0,
                (c.attack_range->0).0,
            ))
        }),
{
    reveal(attack_step);
    let c = s[k].comps;
    let e = s[k].entity;
    let ts = attack_targets(s);
    if c.position is Some && c.team is Some && c.attack_range is Some && c.attack_damage is Some
        && c.attack_speed is Some && c.attack_cooldown is Some && c.crit_chance is Some && (
    c.attack_cooldown->0).0 == 0 {
        let pos = (c.position->0).0;
        let team = (c.team->0).0;
        let range = (c.attack_range->0).0;
        let r2 = fx_mul(range, range);
        law_weakest_target_is_weakest(ts, ts.len() as int, e, pos, team, r2);
        match weakest_target(ts, ts.len() as int, e, pos, team, r2) {
            Some(tgt) => {
                let kk = choose|kk: int| 0 <= kk < ts.len() && ts[kk] == tgt;
                lemma_attack_targets_sound(s, kk);
                let b = choose|i: int|
                    0 <= i < s.len() && s[i].comps.position is Some && s[i].comps.team is Some
                        && s[i].comps.health is Some && ts[kk] == #[trigger] target_info_of(s[i]);
                lemma_attackable_slot(s, b, e, pos, team, range);
                assert forall|j: int|
                    #![trigger living_enemy_in_range(s, j, e, pos, team, range)]
                    living_enemy_in_range(s, j, e, pos, team, range) implies (s[b].comps.health->0).current
                        < (s[j].comps.health->0).current || ((s[b].comps.health->0).current == (
                    s[j].comps.health->0).current && tgt.0.id <= s[j].entity.id) by {
                    lemma_attack_targets_complete(s, j);
                    let q = choose|q: int| 0 <= q < ts.len() && ts[q] == #[trigger] target_info_of(s[j]);
                    lemma_attackable_slot(s, j, e, pos, team, range);
                    assert(attackable(ts[q], e, pos, team, r2));
                }
                assert(is_weakest_enemy(s, e, pos, team, range, tgt.0));
                assert(!no_enemy_in_range(s, e, pos, team, range));
            },
            None => {
                assert forall|j: int|
                    #![trigger living_enemy_in_range(s, j, e, pos, team, range)]
                    !living_enemy_in_range(s, j, e, pos, team, range) by {
                    if living_enemy_in_range(s, j, e, pos, team, range) {
                        lemma_attack_targets_complete(s, j);
                        let q = choose|q: int| 0 <= q < ts.len() && ts[q] == #[trigger] target_info_of(s[j]);
                        lemma_attackable_slot(s, j, e, pos, team, range);
                        assert(attackable(ts[q], e, pos, team, r2));
                    }
                }
            },
        }
    }
}


/// Every damage event of the auto-attack pass comes from an attacker of the
/// world and hits the weakest living enemy in that attacker's range: never
/// an ally of the attacker, the attacker itself, a dead entity or one out
/// of range.
pub proof fn law_auto_attack_hits_weakest_enemy(s: Seq<Slot>, n: int, rng: u64)
    requires
        0 <= n <= s.len(),
    ensures
        ({
            let evs = attack_fold(s, attack_targets(s), n, rng).2;
            forall|m: int|
                0 <= m < evs.len() ==> exists|k: int|
                    0 <= k < n && s[k].entity == (#[trigger] evs[m]).source && s[k].comps.position is Some
                        && s[k].comps.team is Some && s[k].comps.attack_range is Some && is_weakest_enemy(
                        s,
                        s[k].entity,
                        (s[k].comps.position->0).0,
                        (s[k].comps.team->0).0,
                        (s[k].comps.attack_range->0).0,
                        evs[m].target,
                    )
        }),
    decreases n,
{
    if n > 0 {
        law_auto_attack_hits_weakest_enemy(s, n - 1, rng);
        let ts = attack_targets(s);
        let prev = attack_fold(s, ts, n - 1, rng);
        let st = attack_step(s[n - 1].comps, s[n - 1].entity, ts, prev.1);
        law_attack_step_targets_weakest_enemy(s, n - 1, prev.1);
        let evs = attack_fold(s, ts, n, rng).2;
        assert(evs == prev.2 + st.2);
        assert forall|m: int| 0 <= m < evs.len() implies exists|k: int|
            0 <= k < n && s[k].entity == (#[trigger] evs[m]).source && s[k].comps.position is Some
                && s[k].comps.team is Some && s[k].comps.attack_range is Some && is_weakest_enemy(
                s,
                s[k].entity,
                (s[k].comps.position->0).0,
                (s[k].comps.team->0).0,
                (s[k].comps.attack_range->0).0,
                evs[m].target,
            ) by {
            if m < prev.2.len() {
                assert(evs[m] == prev.2[m]);
            } else {
                assert(evs[m] == st.2[m - prev.2.len()]);
            }
        }
    }
}


/// `x` and `y` are entities of the world of different teams, and `y` is
/// alive.
pub open spec fn living_enemies(s: Seq<Slot>, x: Entity, y: Entity) -> bool {
    exists|a: int, b: int|
        #![trigger s[a], s[b]]
        0 <= a < s.len() && 0 <= b < s.len() && s[a].entity == x && s[b].entity == y
            && s[a].comps.team is Some && s[b].comps.team is Some && (s[a].comps.team->0).0 != (
        s[b].comps.team->0).0 && s[b].comps.health is Some && (s[b].comps.health->0).current > 0
}

/// An auto-attack never hits an ally: for every damage event of the pass,
/// the source and the target are entities of the world with different
/// teams, and the target is alive.
pub proof fn law_auto_attack_never_hits_ally(s: Seq<Slot>, rng: u64)
    ensures
        ({
            let evs = attack_fold(s, attack_targets(s), s.len() as int, rng).2;
            forall|m: int| 0 <= m < evs.len() ==> living_enemies(s, (#[trigger] evs[m]).source, evs[m].target)
        }),
{
    law_auto_attack_hits_weakest_enemy(s, s.len() as int, rng);
    let evs = attack_fold(s, attack_targets(s), s.len() as int, rng).2;
    assert forall|m: int| 0 <= m < evs.len() implies living_enemies(s, (#[trigger] evs[m]).source, evs[m].target) by {
        let k = choose|k: int|
            0 <= k < s.len() && s[k].entity == evs[m].source && s[k].comps.position is Some
                && s[k].comps.team is Some && s[k].comps.attack_range is Some && is_weakest_enemy(
                s,
                s[k].entity,
                (s[k].comps.position->0).0,
                (s[k].comps.team->0).0,
                (s[k].comps.attack_range->0).0,
                evs[m].target,
            );
        let pos = (s[k].comps.position->0).0;
        let team = (s[k].comps.team->0).0;
        let range = (s[k].comps.attack_range->0).0;
        let b = choose|b: int|
            #![trigger living_enemy_in_range(s, b, s[k].entity, pos, team, range)]
            living_enemy_in_range(s, b, s[k].entity, pos, team, range) && s[b].entity == evs[m].target
                && forall|j: int|
                #![trigger living_enemy_in_range(s, j, s[k].entity, pos, team, range)]
                living_enemy_in_range(s, j, s[k].entity, pos, team, range) ==> (s[b].comps.health->0).current
                    < (s[j].comps.health->0).current || ((s[b].comps.health->0).current == (
                s[j].comps.health->0).current && evs[m].target.id <= s[j].entity.id);
        assert(living_enemy_in_range(s, b, s[k].entity, pos, team, range));
        // `k` and `b` witness `living_enemies`.
        assert(s[k] == s[k] && s[b] == s[b]);
    }
}

} // verus!
