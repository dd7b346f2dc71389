//! Simulation components: plain data, no game logic.
//!
//! The engine does not know what a hero or a minion is: those are
//! compositions of these components. All logic lives in `sim::systems`.
use vstd::prelude::*;

use crate::game::base::ecs::Entity;
use crate::game::base::types::{Fixed, PlayerId, Vec2Fixed};

verus! {

// ─── Spatial ────────────────────────────────────────────────────────────────
/// Position in the world (fixed-point).
#[derive(Debug, Clone, Copy, PartialEq, Eq, Structural)]
pub struct Position(pub Vec2Fixed);

/// Position at the start of the previous tick, for render interpolation.
#[derive(Debug, Clone, Copy, PartialEq, Eq, Structural)]
pub struct PrevPosition(pub Vec2Fixed);

/// Current velocity (units per tick).
#[derive(Debug, Clone, Copy, PartialEq, Eq, Structural)]
pub struct Velocity(pub Vec2Fixed);

impl Velocity {
    /// The zero velocity.
    pub fn default() -> (r: Velocity)
        ensures
            r.0.x.bits == 0 && r.0.y.bits == 0,
    {
        Velocity(Vec2Fixed::zero())
    }
}

/// Movement destination (click-to-move).
#[derive(Debug, Clone, Copy, PartialEq, Eq, Structural)]
pub struct MoveTarget(pub Vec2Fixed);

/// Maximum movement speed (units per tick).
#[derive(Debug, Clone, Copy, PartialEq, Eq, Structural)]
pub struct MoveSpeed(pub Fixed);

// ─── Combat ─────────────────────────────────────────────────────────────────
/// Hit points.
#[derive(Debug, Clone, Copy, PartialEq, Eq, Structural)]
pub struct Health {
    pub current: i32,
    pub max: i32,
}

/// Health after taking `amount` damage: never below zero.
pub open spec fn health_after_damage(h: Health, amount: i32) -> Health {
    let v = h.current - amount;
    Health { current: if v > 0 { v as i32 } else { 0 }, max: h.max }
}

impl Health {
    /// Full health.
    pub fn new(max: i32) -> (r: Health)
        ensures
            r.current == max,
            r.max == max,
    {
        Health { current: max, max }
    }

    pub fn is_dead(&self) -> (r: bool)
        ensures
            r == (self.current <= 0),
    {
        self.current <= 0
    }

    /// Subtracts damage, clamping at zero. Panics on a difference outside
    /// the `i32` range, so that input is excluded.
    pub fn apply_damage(&mut self, amount: i32)
        requires
            i32::MIN <= old(self).current - amount <= i32::MAX,
        ensures
            *final(self) == health_after_damage(*old(self), amount),
    {
        let v = self.current - amount;
        self.current = if v > 0 { v } else { 0 };
    }
}

/// Attack range (compare against squared distances).
#[derive(Debug, Clone, Copy, PartialEq, Eq, Structural)]
pub struct AttackRange(pub Fixed);

/// Base auto-attack damage.
#[derive(Debug, Clone, Copy, PartialEq, Eq, Structural)]
pub struct AttackDamage(pub i32);

/// Ticks between auto-attacks.
#[derive(Debug, Clone, Copy, PartialEq, Eq, Structural)]
pub struct AttackSpeed(pub u32);

/// Remaining auto-attack cooldown (ticks).
#[derive(Debug, Clone, Copy, PartialEq, Eq, Structural)]
pub struct AttackCooldown(pub u32);

/// Critical hit chance (0..100).
#[derive(Debug, Clone, Copy, PartialEq, Eq, Structural)]
pub struct CritChance(pub u8);

// ─── Crowd control ──────────────────────────────────────────────────────────
#[derive(Debug, Clone, Copy, PartialEq, Eq, Structural)]
pub enum CcKind {
    Stun,
    Root,
    /// Slow by this percentage (0..100).
    Slow(u8),
    Knockup,
    Silence,
}

/// Crowd control active on an entity.
#[derive(Debug, Clone, Copy, PartialEq, Eq, Structural)]
pub struct CrowdControl {
    pub kind: CcKind,
    pub ticks_remaining: u32,
}

// ─── Buffs ──────────────────────────────────────────────────────────────────
/// Buff or debuff with an id and a duration in ticks.
#[derive(Debug, Clone, Copy, PartialEq, Eq, Structural)]
pub struct Buff {
    pub id: u16,
    pub stacks: u8,
    pub ticks_remaining: u32,
    /// Strength of the effect (meaning depends on the buff id).
    pub magnitude: i32,
}

// ─── Identity ───────────────────────────────────────────────────────────────
/// Which player controls the entity.
#[derive(Debug, Clone, Copy, PartialEq, Eq, Structural)]
pub struct Owner(pub PlayerId);

/// Team of the entity (0 = team A, 1 = team B).
#[derive(Debug, Clone, Copy, PartialEq, Eq, Structural)]
pub struct Team(pub u8);

/// Vision range (fog of war).
#[derive(Debug, Clone, Copy, PartialEq, Eq, Structural)]
pub struct VisionRange(pub Fixed);

// ─── AI ─────────────────────────────────────────────────────────────────────
/// Entity the AI is locked on (minions, towers).
#[derive(Debug, Clone, Copy, PartialEq, Eq, Structural)]
pub struct AiTarget(pub Entity);

/// Index of the next lane waypoint.
#[derive(Debug, Clone, Copy, PartialEq, Eq, Structural)]
pub struct WaypointIndex(pub u8);

/// Lane of a minion: an index into `LanePaths`.
#[derive(Debug, Clone, Copy, PartialEq, Eq, Structural)]
pub struct LaneId(pub u8);

// ─── Projectiles ────────────────────────────────────────────────────────────
/// A projectile in flight.
#[derive(Debug, Clone, Copy, PartialEq, Eq, Structural)]
pub struct Projectile {
    pub owner: Entity,
    pub damage: i32,
    pub speed: Fixed,
    pub target: ProjectileTarget,
}

#[derive(Debug, Clone, Copy, PartialEq, Eq, Structural)]
pub enum ProjectileTarget {
    /// Homing projectile tracking an entity.
    Entity(Entity),
    /// Skillshot flying to a fixed point.
    Point(Vec2Fixed),
}

// ─── Pathfinding ────────────────────────────────────────────────────────────
/// Path computed by A*: waypoints to follow to the destination.
#[derive(Debug, Clone)]
pub struct Path {
    pub waypoints: Vec<Vec2Fixed>,
    pub current: usize,
    /// Destination the path was planned for (detects a new click).
    pub destination: Vec2Fixed,
}

impl Path {
    /// The waypoint being followed, if any is left.
    pub open spec fn waypoint(&self) -> Option<Vec2Fixed> {
        if self.current < self.waypoints@.len() {
            Some(self.waypoints@[self.current as int])
        } else {
            None
        }
    }

    /// No waypoint is left.
    pub open spec fn used_up(&self) -> bool {
        self.current >= self.waypoints@.len()
    }

    /// A path has no current waypoint exactly when it is exhausted.
    pub proof fn law_no_waypoint_iff_exhausted(&self)
        ensures
            self.waypoint() is None <==> self.used_up(),
    {
    }

    /// Current waypoint (None once the path is exhausted).
    pub fn current_wp(&self) -> (r: Option<Vec2Fixed>)
        ensures
            r == self.waypoint(),
    {
        if self.current < self.waypoints.len() {
            Some(self.waypoints[self.current])
        } else {
            None
        }
    }

    /// Moves on to the next waypoint. Panics when the index would overflow,
    /// so that input is excluded.
    pub fn advance(&mut self)
        requires
            old(self).current < usize::MAX,
        ensures
            final(self).current == old(self).current + 1,
            final(self).waypoints == old(self).waypoints,
            final(self).destination == old(self).destination,
    {
        self.current = self.current + 1;
    }

    pub fn exhausted(&self) -> (r: bool)
        ensures
            r == self.used_up(),
    {
        self.current >= self.waypoints.len()
    }
}

// ─── Abilities ──────────────────────────────────────────────────────────────
/// Effect of an ability: the engine applies it, the game configures it.
#[derive(Debug, Clone, Copy, PartialEq, Eq)]
pub enum AbilityEffect {
    /// Damage to the enemy closest to the clicked point.
    InstantDamage { amount: i32, hit_radius: Fixed, cc: Option<(CcKind, u32)> },
    /// Damage to every enemy within the radius of the clicked point.
    AreaDamage { radius: Fixed, amount: i32 },
    /// Projectile flying to the clicked point.
    Projectile { speed: Fixed, damage: i32 },
    /// Dash toward the clicked point.
    Dash { distance: Fixed },
}

/// Definition of an ability.
#[derive(Debug, Clone, Copy, PartialEq, Eq)]
pub struct AbilityDef {
    /// Range from the caster to the target point.
    pub range: Fixed,
    /// Ticks between uses.
    pub cooldown: u32,
    pub effect: AbilityEffect,
}

/// Four ability slots per entity (Q/W/E/R).
#[derive(Debug, Clone, Copy, PartialEq, Eq)]
pub struct AbilitySlots(pub [Option<AbilityDef>; 4]);

impl AbilitySlots {
    /// Four empty slots.
    pub fn default() -> (r: AbilitySlots)
        ensures
            forall|i: int| 0 <= i < 4 ==> r.0@[i] is None,
    {
        AbilitySlots([None, None, None, None])
    }
}

/// Active cooldowns per slot (ticks remaining).
#[derive(Debug, Clone, Copy, PartialEq, Eq)]
pub struct AbilityCooldowns(pub [u32; 4]);

impl AbilityCooldowns {
    /// No cooldown running.
    pub fn default() -> (r: AbilityCooldowns)
        ensures
            forall|i: int| 0 <= i < 4 ==> r.0@[i] == 0,
    {
        AbilityCooldowns([0, 0, 0, 0])
    }
}

/// Ability to process this tick: added by input handling, consumed by the
/// ability system.
#[derive(Debug, Clone, Copy, PartialEq, Eq, Structural)]
pub struct PendingAbility {
    pub slot: u8,
    pub target_x: Fixed,
    pub target_y: Fixed,
}

// ─── Markers (presence is the property) ────────────────────────────────────
/// Marker: the entity is removed at the end of the tick.
#[derive(Debug, Clone, Copy, PartialEq, Eq, Structural)]
pub struct Dying;

/// Marker: the entity is dead (waiting to respawn).
#[derive(Debug, Clone, Copy, PartialEq, Eq, Structural)]
pub struct Dead;

} // verus!
