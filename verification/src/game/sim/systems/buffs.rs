//! Buff/debuff and crowd-control durations.
//!
//! This system only manages duration and removal; the concrete effect of a
//! buff is applied by game systems.
use vstd::prelude::*;

use crate::game::base::ecs::{Components, Slot, World, slots_wf};
use crate::game::base::events::{BuffEvent, EventBus};
use crate::game::sim::components::{Buff, CrowdControl};
use crate::game::sim::systems::movement::{lemma_map_comps_wf, map_comps};

verus! {

/// One tick of a crowd control: count down, drop it when it reaches zero.
pub open spec fn crowd_control_comps(c: Components) -> Components {
    match c.crowd_control {
        Some(cc) => {
            let t = if cc.ticks_remaining > 0 { (cc.ticks_remaining - 1) as u32 } else { 0u32 };
            if t == 0 {
                Components { crowd_control: None, ..c }
            } else {
                Components { crowd_control: Some(CrowdControl { ticks_remaining: t, ..cc }), ..c }
            }
        },
        None => c,
    }
}

/// One tick of a buff: count down, drop it when it reaches zero.
pub open spec fn buff_comps(c: Components) -> Components {
    match c.buff {
        Some(b) => {
            let t = if b.ticks_remaining > 0 { (b.ticks_remaining - 1) as u32 } else { 0u32 };
            if t == 0 {
                Components { buff: None, ..c }
            } else {
                Components { buff: Some(Buff { ticks_remaining: t, ..b }), ..c }
            }
        },
        None => c,
    }
}

/// Whether the buff of these components expires this tick.
pub open spec fn buff_expires(c: Components) -> bool {
    match c.buff {
        Some(b) => b.ticks_remaining <= 1,
        None => false,
    }
}

/// Removal events for the buffs that expire, in entity order.
pub open spec fn expired_buff_events(s: Seq<Slot>) -> Seq<BuffEvent>
    decreases s.len(),
{
    if s.len() == 0 {
        Seq::empty()
    } else {
        let prev = expired_buff_events(s.drop_last());
        let last = s.last();
        if buff_expires(last.comps) {
            prev.push(
                BuffEvent { target: last.entity, buff_id: last.comps.buff->0.id, applied: false },
            )
        } else {
            prev
        }
    }
}

fn crowd_control_entity(c: &mut Components)
    ensures
        *final(c) == crowd_control_comps(*old(c)),
{
    match c.crowd_control {
        Some(cc) => {
            let mut t = cc.ticks_remaining;
            if t > 0 {
                t = t - 1;
            }
            if t == 0 {
                c.crowd_control = None;
            } else {
                c.crowd_control = Some(CrowdControl { kind: cc.kind, ticks_remaining: t });
            }
        },
        None => {},
    }
}

/// Counts down every crowd control; removes the ones that expire.
pub fn crowd_control_system(world: &mut World)
    requires
        old(world).wf(),
    ensures
        final(world).wf(),
        final(world).next() == old(world).next(),
        final(world).view() == map_comps(old(world).view(), |c: Components| crowd_control_comps(c)),
{
    let ghost old_slots = world.slots@;
    let mut i: usize = 0;
    while i < world.slots.len()
        invariant
            i <= world.slots@.len(),
            world.slots@.len() == old_slots.len(),
            world.next_id == old(world).next_id,
            slots_wf(old_slots, world.next_id),
            forall|k: int|
                0 <= k < i ==> #[trigger] world.slots@[k] == (Slot {
                    entity: old_slots[k].entity,
                    comps: crowd_control_comps(old_slots[k].comps),
                }),
            forall|k: int| i <= k < world.slots@.len() ==> #[trigger] world.slots@[k] == old_slots[k],
        decreases world.slots@.len() - i,
    {
        crowd_control_entity(&mut world.slots[i].comps);
        i = i + 1;
    }
    proof {
        let f = |c: Components| crowd_control_comps(c);
        lemma_map_comps_wf(old_slots, f, world.next_id);
        assert(world.slots@ =~= map_comps(old_slots, f));
    }
}

fn buff_entity(c: &mut Components) -> (expired: Option<u16>)
    ensures
        *final(c) == buff_comps(*old(c)),
        expired == (if buff_expires(*old(c)) { Some(old(c).buff->0.id) } else { None }),
{
    match c.buff {
        Some(b) => {
            let mut t = b.ticks_remaining;
            if t > 0 {
                t = t - 1;
            }
            if t == 0 {
                c.buff = None;
                Some(b.id)
            } else {
                c.buff = Some(Buff { id: b.id, stacks: b.stacks, ticks_remaining: t, magnitude: b.magnitude });
                None
            }
        },
        None => None,
    }
}

/// Counts down every buff; removes the ones that expire and emits a removal
/// event for each, in entity order.
pub fn buff_system(world: &mut World, events: &mut EventBus)
    requires
        old(world).wf(),
    ensures
        final(world).wf(),
        final(world).next() == old(world).next(),
        final(world).view() == map_comps(old(world).view(), |c: Components| buff_comps(c)),
        final(events).buffs.view() == old(events).buffs.view() + expired_buff_events(
            old(world).view(),
        ),
        final(events).damage == old(events).damage,
        final(events).deaths == old(events).deaths,
        final(events).abilities == old(events).abilities,
{
    let ghost old_slots = world.slots@;
    let ghost old_buffs = events.buffs.view();
    let mut i: usize = 0;
    while i < world.slots.len()
        invariant
            i <= world.slots@.len(),
            world.slots@.len() == old_slots.len(),
            world.next_id == old(world).next_id,
            slots_wf(old_slots, world.next_id),
            forall|k: int|
                0 <= k < i ==> #[trigger] world.slots@[k] == (Slot {
                    entity: old_slots[k].entity,
                    comps: buff_comps(old_slots[k].comps),
                }),
            forall|k: int| i <= k < world.slots@.len() ==> #[trigger] world.slots@[k] == old_slots[k],
            events.buffs.view() == old_buffs + expired_buff_events(old_slots.take(i as int)),
            events.damage == old(events).damage,
            events.deaths == old(events).deaths,
            events.abilities == old(events).abilities,
        decreases world.slots@.len() - i,
    {
        let entity = world.slots[i].entity;
        let expired = buff_entity(&mut world.slots[i].comps);
        proof {
            assert(old_slots.take(i + 1).drop_last() =~= old_slots.take(i as int));
        }
        match expired {
            Some(id) => {
                events.buffs.emit(BuffEvent { target: entity, buff_id: id, applied: false });
            },
            None => {},
        }
        i = i + 1;
    }
    proof {
        let f = |c: Components| buff_comps(c);
        lemma_map_comps_wf(old_slots, f, world.next_id);
        assert(world.slots@ =~= map_comps(old_slots, f));
        assert(old_slots.take(old_slots.len() as int) =~= old_slots);
    }
}

} // verus!
