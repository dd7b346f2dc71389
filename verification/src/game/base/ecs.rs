//! ECS substrate: entities are plain ids, components are data, systems are
//! functions outside this module.
//!
//! The world keeps its entities in spawn order, each with the optional set of
//! components the simulation knows. Spawn order is also ascending id order,
//! so every query visits entities in the same order on every peer.
use vstd::prelude::*;

use crate::game::sim::components::{
    AbilityCooldowns, AbilitySlots, AiTarget, AttackCooldown, AttackDamage, AttackRange,
    AttackSpeed, Buff, CritChance, CrowdControl, Dead, Dying, Health, LaneId, MoveSpeed,
    MoveTarget, Owner, Path, PendingAbility, Position, PrevPosition, Projectile, Team,
    Velocity, VisionRange, WaypointIndex,
};

verus! {

/// Handle of an entity. Ids are never reused within a world.
#[derive(Debug, Clone, Copy, PartialEq, Eq, Structural, Hash)]
pub struct Entity {
    pub id: u32,
}

impl Entity {
    pub fn id(&self) -> (r: u32)
        ensures
            r == self.id,
    {
        self.id
    }
}

/// The components an entity may carry; `None` means absent.
#[derive(Debug, Clone)]
pub struct Components {
    pub position: Option<Position>,
    pub prev_position: Option<PrevPosition>,
    pub velocity: Option<Velocity>,
    pub move_target: Option<MoveTarget>,
    pub move_speed: Option<MoveSpeed>,
    pub health: Option<Health>,
    pub attack_range: Option<AttackRange>,
    pub attack_damage: Option<AttackDamage>,
    pub attack_speed: Option<AttackSpeed>,
    pub attack_cooldown: Option<AttackCooldown>,
    pub crit_chance: Option<CritChance>,
    pub crowd_control: Option<CrowdControl>,
    pub buff: Option<Buff>,
    pub owner: Option<Owner>,
    pub team: Option<Team>,
    pub vision_range: Option<VisionRange>,
    pub ai_target: Option<AiTarget>,
    pub waypoint_index: Option<WaypointIndex>,
    pub lane_id: Option<LaneId>,
    pub projectile: Option<Projectile>,
    pub path: Option<Path>,
    pub ability_slots: Option<AbilitySlots>,
    pub ability_cooldowns: Option<AbilityCooldowns>,
    pub pending_ability: Option<PendingAbility>,
    pub dying: Option<Dying>,
    pub dead: Option<Dead>,
}

pub open spec fn no_components() -> Components {
    Components {
        position: None,
        prev_position: None,
        velocity: None,
        move_target: None,
        move_speed: None,
        health: None,
        attack_range: None,
        attack_damage: None,
        attack_speed: None,
        attack_cooldown: None,
        crit_chance: None,
        crowd_control: None,
        buff: None,
        owner: None,
        team: None,
        vision_range: None,
        ai_target: None,
        waypoint_index: None,
        lane_id: None,
        projectile: None,
        path: None,
        ability_slots: None,
        ability_cooldowns: None,
        pending_ability: None,
        dying: None,
        dead: None,
    }
}

impl Components {
    /// A bundle with no component.
    pub fn empty() -> (r: Components)
        ensures
            r == no_components(),
    {
        Components {
            position: None,
            prev_position: None,
            velocity: None,
            move_target: None,
            move_speed: None,
            health: None,
            attack_range: None,
            attack_damage: None,
            attack_speed: None,
            attack_cooldown: None,
            crit_chance: None,
            crowd_control: None,
            buff: None,
            owner: None,
            team: None,
            vision_range: None,
            ai_target: None,
            waypoint_index: None,
            lane_id: None,
            projectile: None,
            path: None,
            ability_slots: None,
            ability_cooldowns: None,
            pending_ability: None,
            dying: None,
            dead: None,
        }
    }
}

/// An entity together with its components.
#[derive(Debug, Clone)]
pub struct Slot {
    pub entity: Entity,
    pub comps: Components,
}

/// The entity store.
pub struct World {
    pub slots: Vec<Slot>,
    pub next_id: u32,
}

/// Ids appear in strictly increasing order and are all below `next`.
pub open spec fn slots_wf(s: Seq<Slot>, next: u32) -> bool {
    &&& forall|i: int, j: int| 0 <= i < j < s.len() ==> s[i].entity.id < s[j].entity.id
    &&& forall|i: int| 0 <= i < s.len() ==> s[i].entity.id < next
}

/// Whether `e` is alive in `s`.
pub open spec fn has_entity(s: Seq<Slot>, e: Entity) -> bool {
    exists|i: int| 0 <= i < s.len() && s[i].entity == e
}

impl World {
    pub open spec fn view(&self) -> Seq<Slot> {
        self.slots@
    }

    pub open spec fn next(&self) -> u32 {
        self.next_id
    }

    pub open spec fn wf(&self) -> bool {
        slots_wf(self.slots@, self.next_id)
    }

    pub fn new() -> (w: World)
        ensures
            w.wf(),
            w.view().len() == 0,
            w.next() == 0,
    {
        World { slots: Vec::new(), next_id: 0 }
    }

    pub fn len(&self) -> (r: usize)
        ensures
            r == self.view().len(),
    {
        self.slots.len()
    }

    /// Spawns an entity with the given components; ids are handed out in
    /// increasing order. Running out of ids would panic, so that input is
    /// excluded.
    pub fn spawn(&mut self, comps: Components) -> (e: Entity)
        requires
            old(self).wf(),
            old(self).next() < u32::MAX,
        ensures
            final(self).wf(),
            e.id == old(self).next(),
            final(self).next() == old(self).next() + 1,
            final(self).view() == old(self).view().push(Slot { entity: e, comps }),
    {
        let e = Entity { id: self.next_id };
        self.slots.push(Slot { entity: e, comps });
        self.next_id = self.next_id + 1;
        e
    }

    /// Index of `e` among the slots.
    pub fn find(&self, e: Entity) -> (r: Option<usize>)
        requires
            self.wf(),
        ensures
            r matches Some(i) ==> i < self.view().len() && self.view()[i as int].entity == e,
            r is None ==> !has_entity(self.view(), e),
    {
        let mut i: usize = 0;
        while i < self.slots.len()
            invariant
                i <= self.slots@.len(),
                forall|k: int| 0 <= k < i ==> self.slots@[k].entity != e,
            decreases self.slots@.len() - i,
        {
            if self.slots[i].entity == e {
                return Some(i);
            }
            i = i + 1;
        }
        None
    }

    pub fn contains(&self, e: Entity) -> (r: bool)
        requires
            self.wf(),
        ensures
            r == has_entity(self.view(), e),
    {
        match self.find(e) {
            Some(_) => true,
            None => false,
        }
    }

    /// Components of `e`, if alive.
    pub fn get(&self, e: Entity) -> (r: Option<&Components>)
        requires
            self.wf(),
        ensures
            r matches Some(c) ==> exists|i: int|
                0 <= i < self.view().len() && self.view()[i].entity == e && self.view()[i].comps
                    == *c,
            r is None ==> !has_entity(self.view(), e),
    {
        match self.find(e) {
            Some(i) => Some(&self.slots[i].comps),
            None => None,
        }
    }

    /// Replaces the components of `e`; returns false when `e` is not alive.
    pub fn set(&mut self, e: Entity, comps: Components) -> (r: bool)
        requires
            old(self).wf(),
        ensures
            final(self).wf(),
            final(self).next() == old(self).next(),
            r == has_entity(old(self).view(), e),
            final(self).view().len() == old(self).view().len(),
            forall|i: int|
                0 <= i < old(self).view().len() ==> #[trigger] final(self).view()[i] == (if old(self).view()[i].entity == e {
                    Slot { entity: e, comps }
                } else {
                    old(self).view()[i]
                }),
    {
        match self.find(e) {
            Some(i) => {
                self.slots.set(i, Slot { entity: e, comps });
                proof {
                    assert forall|k: int| 0 <= k < old(self).view().len() && k != i implies
                        old(self).view()[k].entity != e by {
                        if k < i {
                        } else {
                        }
                    }
                }
                true
            },
            None => false,
        }
    }

    /// Removes `e` and all its components; returns false when `e` was not
    /// alive.
    pub fn despawn(&mut self, e: Entity) -> (r: bool)
        requires
            old(self).wf(),
        ensures
            final(self).wf(),
            final(self).next() == old(self).next(),
            r == has_entity(old(self).view(), e),
            r ==> exists|i: int|
                0 <= i < old(self).view().len() && old(self).view()[i].entity == e && final(self).view() == old(self).view().remove(i),
            !r ==> final(self).view() == old(self).view(),
    {
        match self.find(e) {
            Some(i) => {
                let ghost before = self.slots@;
                self.slots.remove(i);
                proof {
                    assert(self.slots@ == before.remove(i as int));
                    assert forall|a: int, b: int| 0 <= a < b < self.slots@.len() implies
                        self.slots@[a].entity.id < self.slots@[b].entity.id by {
                        let a2 = if a < i { a } else { a + 1 };
                        let b2 = if b < i { b } else { b + 1 };
                        assert(self.slots@[a] == before[a2]);
                        assert(self.slots@[b] == before[b2]);
                    }
                }
                true
            },
            None => false,
        }
    }
}

/// Components of `e`, if alive.
pub open spec fn comps_of(s: Seq<Slot>, e: Entity) -> Option<Components> {
    if has_entity(s, e) {
        Some(s[choose|i: int| 0 <= i < s.len() && s[i].entity == e].comps)
    } else {
        None
    }
}

/// The world with the components of `e` replaced (no change if `e` is not
/// alive).
pub open spec fn set_comps(s: Seq<Slot>, e: Entity, c: Components) -> Seq<Slot> {
    s.map_values(|x: Slot| if x.entity == e { Slot { entity: e, comps: c } } else { x })
}

/// In a well-formed world, an entity occurs at one index only.
pub proof fn lemma_unique_index(s: Seq<Slot>, next: u32, i: int, j: int)
    requires
        slots_wf(s, next),
        0 <= i < s.len(),
        0 <= j < s.len(),
        s[i].entity == s[j].entity,
    ensures
        i == j,
{
    if i < j {
        assert(s[i].entity.id < s[j].entity.id);
    } else if j < i {
        assert(s[j].entity.id < s[i].entity.id);
    }
}

/// Reading and writing the components of the entity found at index `i`.
pub proof fn lemma_at_index(s: Seq<Slot>, next: u32, i: int, c: Components)
    requires
        slots_wf(s, next),
        0 <= i < s.len(),
    ensures
        comps_of(s, s[i].entity) == Some(s[i].comps),
        set_comps(s, s[i].entity, c) == s.update(i, Slot { entity: s[i].entity, comps: c }),
        slots_wf(s.update(i, Slot { entity: s[i].entity, comps: c }), next),
{
    let e = s[i].entity;
    assert(has_entity(s, e));
    let k = choose|k: int| 0 <= k < s.len() && s[k].entity == e;
    lemma_unique_index(s, next, i, k);
    assert forall|j: int| 0 <= j < s.len() && j != i implies s[j].entity != e by {
        if s[j].entity == e {
            lemma_unique_index(s, next, i, j);
        }
    }
    assert(set_comps(s, e, c) =~= s.update(i, Slot { entity: e, comps: c }));
}

/// Reading and writing the components of an entity that is not alive.
pub proof fn lemma_absent(s: Seq<Slot>, e: Entity, c: Components)
    requires
        !has_entity(s, e),
    ensures
        comps_of(s, e) is None,
        set_comps(s, e, c) == s,
{
    assert forall|j: int| 0 <= j < s.len() implies s[j].entity != e by {
        if s[j].entity == e {
            assert(has_entity(s, e));
        }
    }
    assert(set_comps(s, e, c) =~= s);
}

} // verus!
