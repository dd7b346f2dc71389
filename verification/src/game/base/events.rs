//! Synchronous event bus, emptied at the end of every tick.
//!
//! Systems do not call each other: they communicate through events. No event
//! outlives the tick in which it was emitted.
use vstd::prelude::*;

use crate::game::base::ecs::Entity;
use crate::game::base::types::Fixed;

verus! {

/// Typed event queue, drained at the end of each tick.
pub struct EventQueue<T> {
    pub events: Vec<T>,
}

impl<T> EventQueue<T> {
    pub open spec fn view(&self) -> Seq<T> {
        self.events@
    }

    pub fn new() -> (q: EventQueue<T>)
        ensures
            q.view() == Seq::<T>::empty(),
    {
        EventQueue { events: Vec::new() }
    }

    /// Appends an event.
    pub fn emit(&mut self, event: T)
        ensures
            final(self).view() == old(self).view().push(event),
    {
        self.events.push(event);
    }

    /// Takes out every event, in emission order, leaving the queue empty.
    pub fn drain(&mut self) -> (r: Vec<T>)
        ensures
            r@ == old(self).view(),
            final(self).view() == Seq::<T>::empty(),
    {
        let mut out: Vec<T> = Vec::new();
        std::mem::swap(&mut out, &mut self.events);
        out
    }

    pub fn is_empty(&self) -> (r: bool)
        ensures
            r == (self.view().len() == 0),
    {
        self.events.len() == 0
    }

    pub fn len(&self) -> (r: usize)
        ensures
            r == self.view().len(),
    {
        self.events.len()
    }
}

// ─── Simulation events ──────────────────────────────────────────────────────
/// Damage dealt to an entity.
#[derive(Debug, Clone, Copy, PartialEq, Eq, Structural)]
pub struct DamageEvent {
    pub source: Entity,
    pub target: Entity,
    pub amount: i32,
}

/// An entity died.
#[derive(Debug, Clone, Copy, PartialEq, Eq, Structural)]
pub struct DeathEvent {
    pub entity: Entity,
    pub killer: Entity,
}

/// Buff applied or removed.
#[derive(Debug, Clone, Copy, PartialEq, Eq, Structural)]
pub struct BuffEvent {
    pub target: Entity,
    pub buff_id: u16,
    /// true = applied, false = removed.
    pub applied: bool,
}

/// Ability used: for visual effects and game logic.
#[derive(Debug, Clone, Copy, PartialEq, Eq, Structural)]
pub struct AbilityEvent {
    pub caster: Entity,
    pub ability_slot: u8,
    pub target_x: Fixed,
    pub target_y: Fixed,
    pub target_id: Option<Entity>,
}

/// All event queues of a tick.
pub struct EventBus {
    pub damage: EventQueue<DamageEvent>,
    pub deaths: EventQueue<DeathEvent>,
    pub buffs: EventQueue<BuffEvent>,
    pub abilities: EventQueue<AbilityEvent>,
}

impl EventBus {
    pub open spec fn is_empty_bus(&self) -> bool {
        &&& self.damage.view().len() == 0
        &&& self.deaths.view().len() == 0
        &&& self.buffs.view().len() == 0
        &&& self.abilities.view().len() == 0
    }

    pub fn new() -> (b: EventBus)
        ensures
            b.is_empty_bus(),
    {
        EventBus {
            damage: EventQueue::new(),
            deaths: EventQueue::new(),
            buffs: EventQueue::new(),
            abilities: EventQueue::new(),
        }
    }

    /// Drops every pending event: called at the end of each tick.
    pub fn clear(&mut self)
        ensures
            final(self).is_empty_bus(),
    {
        let _ = self.damage.drain();
        let _ = self.deaths.drain();
        let _ = self.buffs.drain();
        let _ = self.abilities.drain();
    }
}

} // verus!
