//! `SimWorld`: the whole state of the deterministic simulation.
//!
//! `run_tick` runs every system in order. The rollback layer drives it
//! through the `Simulation` interface.
use vstd::prelude::*;

use crate::game::base::ecs::{Components, Slot, World, slots_wf};
use crate::game::base::events::{DamageEvent, DeathEvent, EventBus};
use crate::game::base::types::{Fixed, Vec2Fixed};
use crate::game::input::events::InputEvent;
use crate::game::sim::components::{MoveTarget, Owner, PendingAbility};
use crate::game::sim::pathfinding::grid::NavigationGrid;
use crate::game::sim::pathfinding::{pathfinding_system, replanned};
use crate::game::sim::rng::DeterministicRng;
use crate::game::sim::systems::abilities::{
    ability_cooldown_comps, ability_cooldown_system, ability_system, cast_fold, pending_casts,
};
use crate::game::sim::systems::buffs::{buff_comps, buff_system, crowd_control_comps, crowd_control_system};
use crate::game::sim::systems::combat::{
    attack_fold, attack_targets, auto_attack_system, cleanup_system, cooldown_comps,
    cooldown_system, damage_fold, death_system, health_system, mark_dying, remove_dying,
};
use crate::game::sim::systems::movement::{
    clear_arrived_comps, clear_arrived_targets, lemma_map_comps_wf, map_comps, move_target_comps,
    move_target_system, movement_comps, movement_system,
};

verus! {

/// What one input does to an entity: a ground move sets the move target of
/// every entity the player owns, an ability queues a cast on them; other
/// inputs change nothing here.
pub open spec fn input_comps(ev: InputEvent, c: Components) -> Components {
    match ev {
        InputEvent::MoveGround { player_id, x_bits, y_bits } => if c.owner == Some(
            Owner(player_id),
        ) {
            Components {
                move_target: Some(
                    MoveTarget(Vec2Fixed { x: Fixed { bits: x_bits }, y: Fixed { bits: y_bits } }),
                ),
                ..c
            }
        } else {
            c
        },
        InputEvent::Ability { player_id, slot, x_bits, y_bits, .. } => if c.owner == Some(
            Owner(player_id),
        ) {
            Components {
                pending_ability: Some(
                    PendingAbility {
                        slot,
                        target_x: Fixed { bits: x_bits },
                        target_y: Fixed { bits: y_bits },
                    },
                ),
                ..c
            }
        } else {
            c
        },
        _ => c,
    }
}

/// The slots after applying `inputs` in order.
pub open spec fn inputs_applied(s: Seq<Slot>, inputs: Seq<InputEvent>) -> Seq<Slot>
    decreases inputs.len(),
{
    if inputs.len() == 0 {
        s
    } else {
        map_comps(
            inputs_applied(s, inputs.drop_last()),
            |c: Components| input_comps(inputs.last(), c),
        )
    }
}

proof fn lemma_inputs_applied_wf(s: Seq<Slot>, inputs: Seq<InputEvent>, next: u32)
    requires
        slots_wf(s, next),
    ensures
        slots_wf(inputs_applied(s, inputs), next),
        inputs_applied(s, inputs).len() == s.len(),
    decreases inputs.len(),
{
    if inputs.len() > 0 {
        lemma_inputs_applied_wf(s, inputs.drop_last(), next);
        lemma_map_comps_wf(
            inputs_applied(s, inputs.drop_last()),
            |c: Components| input_comps(inputs.last(), c),
            next,
        );
    }
}

/// `s2` is `s1` after path planning.
pub open spec fn paths_rel(nav: &NavigationGrid, s1: Seq<Slot>, s2: Seq<Slot>) -> bool {
    &&& s2.len() == s1.len()
    &&& forall|i: int|
        0 <= i < s1.len() ==> (#[trigger] s2[i]).entity == s1[i].entity && replanned(
            nav,
            s1[i].comps,
            s2[i].comps,
        )
}

/// The rest of a tick once paths are planned, from slots `s2`: movement,
/// abilities, cooldowns, auto-attacks, damage, deaths, crowd control, buffs
/// and clean-up. Gives the slots, the next entity id, the random state, and
/// whether every step stayed within `i32` (the arithmetic overflows
/// otherwise).
pub open spec fn tick_after_paths(
    s2: Seq<Slot>,
    next: u32,
    rng: u64,
    dmg0: Seq<DamageEvent>,
    deaths0: Seq<DeathEvent>,
) -> (Seq<Slot>, u32, u64, bool) {
    let s3 = map_comps(
        map_comps(
            map_comps(s2, |c: Components| move_target_comps(c)),
            |c: Components| movement_comps(c),
        ),
        |c: Components| clear_arrived_comps(c),
    );
    let pend = pending_casts(s3);
    let o = cast_fold(s3, next, pend, pend.len() as int);
    let s5 = map_comps(
        map_comps(o.0, |c: Components| cooldown_comps(c)),
        |c: Components| ability_cooldown_comps(c),
    );
    let f = attack_fold(s5, attack_targets(s5), s5.len() as int, rng);
    let dmg = dmg0 + o.2 + f.2;
    let h = damage_fold(f.0, dmg, dmg.len() as int);
    let s8 = mark_dying(h.0, deaths0 + h.1);
    let s9 = map_comps(
        map_comps(s8, |c: Components| crowd_control_comps(c)),
        |c: Components| buff_comps(c),
    );
    (remove_dying(s9), o.1, f.1, o.4 && f.3 && h.2)
}


/// The `n` little-endian bytes of `v` (taken modulo 256^n).
pub open spec fn le_bytes(v: int, n: nat) -> Seq<u8>
    decreases n,
{
    if n == 0 {
        Seq::empty()
    } else {
        seq![(v % 256) as u8] + le_bytes(v / 256, (n - 1) as nat)
    }
}

/// The unsigned value of little-endian bytes.
pub open spec fn le_value(b: Seq<u8>) -> int
    decreases b.len(),
{
    if b.len() == 0 {
        0
    } else {
        b[0] + 256 * le_value(b.drop_first())
    }
}

pub open spec fn pow256(n: nat) -> int
    decreases n,
{
    if n == 0 {
        1
    } else {
        256 * pow256((n - 1) as nat)
    }
}

/// Reading back little-endian bytes gives the value written.
pub proof fn lemma_le_roundtrip(v: int, n: nat)
    requires
        0 <= v < pow256(n),
    ensures
        le_bytes(v, n).len() == n,
        le_value(le_bytes(v, n)) == v,
    decreases n,
{
    if n > 0 {
        assert(v / 256 < pow256((n - 1) as nat)) by (nonlinear_arith)
            requires
                0 <= v < 256 * pow256((n - 1) as nat),
        ;
        lemma_le_roundtrip(v / 256, (n - 1) as nat);
        let b = le_bytes(v, n);
        assert(b.drop_first() =~= le_bytes(v / 256, (n - 1) as nat));
    }
}

/// FNV-1a over `bytes`, starting from `h`.
pub open spec fn fnv1a(h: u64, bytes: Seq<u8>) -> u64
    decreases bytes.len(),
{
    if bytes.len() == 0 {
        h
    } else {
        (((fnv1a(h, bytes.drop_last()) ^ (bytes.last() as u64)) as int * 0x100000001b3)
            % 0x1_0000_0000_0000_0000) as u64
    }
}

/// Bytes hashed by the checksum: for each entity with a position and health,
/// in entity order, its id, its x (raw bits) and its current health.
pub open spec fn checksum_bytes(s: Seq<Slot>) -> Seq<u8>
    decreases s.len(),
{
    if s.len() == 0 {
        Seq::empty()
    } else {
        let prev = checksum_bytes(s.drop_last());
        let c = s.last().comps;
        if c.position is Some && c.health is Some {
            prev + le_bytes(s.last().entity.id as int, 4) + le_bytes(
                (c.position->0).0.x.bits as u64 as int,
                8,
            ) + le_bytes((c.health->0).current as u32 as int, 4)
        } else {
            prev
        }
    }
}

/// Bytes of a snapshot after tick and random state: for each entity with a
/// position and health, its id, x, y, current and maximum health.
pub open spec fn snapshot_bytes(s: Seq<Slot>) -> Seq<u8>
    decreases s.len(),
{
    if s.len() == 0 {
        Seq::empty()
    } else {
        let prev = snapshot_bytes(s.drop_last());
        let c = s.last().comps;
        if c.position is Some && c.health is Some {
            prev + le_bytes(s.last().entity.id as int, 4) + le_bytes(
                (c.position->0).0.x.bits as u64 as int,
                8,
            ) + le_bytes((c.position->0).0.y.bits as u64 as int, 8) + le_bytes(
                (c.health->0).current as u32 as int,
                4,
            ) + le_bytes((c.health->0).max as u32 as int, 4)
        } else {
            prev
        }
    }
}

/// The bytes of a whole snapshot.
pub open spec fn serialized(tick: u64, rng: u64, s: Seq<Slot>) -> Seq<u8> {
    le_bytes(tick as int, 8) + le_bytes(rng as int, 8) + snapshot_bytes(s)
}

proof fn lemma_pow256_pos(n: nat)
    ensures
        pow256(n) > 0,
    decreases n,
{
    if n > 0 {
        lemma_pow256_pos((n - 1) as nat);
    }
}

/// The first `a + b` bytes are the first `a` followed by the bytes of the
/// remaining high part.
proof fn lemma_le_split(v: int, a: nat, b: nat)
    requires
        v >= 0,
    ensures
        le_bytes(v, a + b) =~= le_bytes(v, a) + le_bytes(v / pow256(a), b),
    decreases a,
{
    if a > 0 {
        lemma_le_split(v / 256, (a - 1) as nat, b);
        lemma_pow256_pos((a - 1) as nat);
        vstd::arithmetic::div_mod::lemma_div_denominator(v, 256, pow256((a - 1) as nat));
        assert(le_bytes(v, a + b) == seq![(v % 256) as u8] + le_bytes(v / 256, (a + b - 1) as nat));
    }
}

/// Appends the `n` little-endian bytes of `v`.
fn push_le(buf: &mut Vec<u8>, v: u64, n: usize)
    requires
        n <= 8,
    ensures
        final(buf)@ == old(buf)@ + le_bytes(v as int, n as nat),
{
    let mut rest = v;
    let mut k: usize = 0;
    let ghost start = buf@;
    while k < n
        invariant
            k <= n,
            rest == v as int / pow256(k as nat),
            buf@ == start + le_bytes(v as int, k as nat),
        decreases n - k,
    {
        proof {
            lemma_le_split(v as int, k as nat, 1);
            lemma_pow256_pos(k as nat);
            vstd::arithmetic::div_mod::lemma_div_denominator(v as int, pow256(k as nat), 256);
            assert(pow256((k + 1) as nat) == 256 * pow256(k as nat));
            assert(pow256(k as nat) * 256 == 256 * pow256(k as nat)) by (nonlinear_arith);
            assert(le_bytes(rest as int / 256, 0) =~= Seq::<u8>::empty());
            assert(le_bytes(rest as int, 1) =~= seq![(rest % 256) as u8]);
        }
        buf.push((rest % 256) as u8);
        rest = rest / 256;
        k = k + 1;
        proof {
            assert(buf@ =~= start + le_bytes(v as int, k as nat));
        }
    }
}

proof fn lemma_le_value_bound(b: Seq<u8>)
    ensures
        0 <= le_value(b) < pow256(b.len()),
    decreases b.len(),
{
    if b.len() > 0 {
        lemma_le_value_bound(b.drop_first());
        assert(le_value(b) < pow256(b.len())) by (nonlinear_arith)
            requires
                le_value(b) == b[0] + 256 * le_value(b.drop_first()),
                0 <= b[0] < 256,
                0 <= le_value(b.drop_first()) < pow256((b.len() - 1) as nat),
                pow256(b.len()) == 256 * pow256((b.len() - 1) as nat),
        ;
    }
}

/// Reads 8 little-endian bytes at `off`.
fn read_le_u64(data: &[u8], off: usize) -> (r: u64)
    requires
        off <= 8,
        off + 8 <= data@.len(),
    ensures
        r == le_value(data@.subrange(off as int, off + 8)),
{
    let mut v: u64 = 0;
    let mut i: usize = 8;
    proof {
        assert(data@.subrange(off + 8, off + 8) =~= Seq::<u8>::empty());
    }
    while i > 0
        invariant
            i <= 8,
            off <= 8,
            off + 8 <= data@.len(),
            v == le_value(data@.subrange(off + i, off + 8)),
        decreases i,
    {
        i = i - 1;
        let ghost tail = data@.subrange(off + i + 1, off + 8);
        let ghost whole = data@.subrange(off + i, off + 8);
        proof {
            assert(whole.drop_first() =~= tail);
            lemma_le_value_bound(tail);
            assert(pow256(7) == 0x100_0000_0000_0000) by {
                reveal_with_fuel(pow256, 8);
            }
            lemma_pow256_mono(tail.len(), 7);
        }
        v = data[off + i] as u64 + 256 * v;
    }
    v
}

proof fn lemma_pow256_mono(a: nat, b: nat)
    requires
        a <= b,
    ensures
        pow256(a) <= pow256(b),
    decreases b,
{
    if a < b {
        lemma_pow256_mono(a, (b - 1) as nat);
        lemma_pow256_pos((b - 1) as nat);
    }
}

/// Snapshots give back the tick and random state they were taken from.
pub proof fn law_snapshot_restores_tick_and_rng(tick: u64, rng: u64, s: Seq<Slot>)
    ensures
        serialized(tick, rng, s).len() >= 16,
        le_value(serialized(tick, rng, s).subrange(0, 8)) == tick,
        le_value(serialized(tick, rng, s).subrange(8, 16)) == rng,
{
    assert(pow256(8) == 0x1_0000_0000_0000_0000) by {
        reveal_with_fuel(pow256, 9);
    }
    lemma_le_roundtrip(tick as int, 8);
    lemma_le_roundtrip(rng as int, 8);
    let d = serialized(tick, rng, s);
    assert(d.subrange(0, 8) =~= le_bytes(tick as int, 8));
    assert(d.subrange(8, 16) =~= le_bytes(rng as int, 8));
}


/// The complete simulation state.
pub struct SimWorld {
    pub world: World,
    pub events: EventBus,
    pub rng: DeterministicRng,
    pub tick: u64,
    pub nav_grid: NavigationGrid,
}

fn apply_input_entity(ev: &InputEvent, c: &mut Components)
    ensures
        *final(c) == input_comps(*ev, *old(c)),
{
    match ev {
        InputEvent::MoveGround { player_id, x_bits, y_bits } => {
            if c.owner == Some(Owner(*player_id)) {
                c.move_target = Some(
                    MoveTarget(
                        Vec2Fixed::new(Fixed::from_bits(*x_bits), Fixed::from_bits(*y_bits)),
                    ),
                );
            }
        },
        InputEvent::Ability { player_id, slot, x_bits, y_bits, .. } => {
            if c.owner == Some(Owner(*player_id)) {
                c.pending_ability = Some(
                    PendingAbility {
                        slot: *slot,
                        target_x: Fixed::from_bits(*x_bits),
                        target_y: Fixed::from_bits(*y_bits),
                    },
                );
            }
        },
        _ => {},
    }
}

impl SimWorld {
    /// A fresh simulation: empty world, no events, tick 0, an empty 128×128
    /// navigation grid.
    pub fn new(rng_seed: u64) -> (r: SimWorld)
        ensures
            r.world.wf(),
            r.world.view().len() == 0,
            r.world.next() == 0,
            r.events.is_empty_bus(),
            r.rng.state == rng_seed,
            r.tick == 0,
            r.nav_grid.cols() == 128,
            r.nav_grid.rows() == 128,
            r.nav_grid.cell_len() == (Fixed { bits: 0x1_0000_0000 }),
            r.nav_grid.corner() == (Vec2Fixed { x: Fixed { bits: 0 }, y: Fixed { bits: 0 } }),
            forall|x: int, y: int| r.nav_grid.inside(x, y) ==> !r.nav_grid.blocked_at(x, y),
    {
        SimWorld {
            world: World::new(),
            events: EventBus::new(),
            rng: DeterministicRng::new(rng_seed),
            tick: 0,
            nav_grid: NavigationGrid::default_128(),
        }
    }

    /// Applies the inputs, in order, to the components.
    fn apply_inputs(&mut self, inputs: &[InputEvent])
        requires
            old(self).world.wf(),
        ensures
            final(self).world.wf(),
            final(self).world.next() == old(self).world.next(),
            final(self).world.view() == inputs_applied(old(self).world.view(), inputs@),
            final(self).events == old(self).events,
            final(self).rng == old(self).rng,
            final(self).tick == old(self).tick,
            final(self).nav_grid == old(self).nav_grid,
    {
        let ghost s0 = self.world.slots@;
        let mut n: usize = 0;
        while n < inputs.len()
            invariant
                n <= inputs@.len(),
                self.world.next_id == old(self).world.next_id,
                slots_wf(s0, self.world.next_id),
                s0 == old(self).world.slots@,
                self.world.slots@ == inputs_applied(s0, inputs@.subrange(0, n as int)),
                self.events == old(self).events,
                self.rng == old(self).rng,
                self.tick == old(self).tick,
                self.nav_grid == old(self).nav_grid,
            decreases inputs@.len() - n,
        {
            let ev = &inputs[n];
            let ghost before = self.world.slots@;
            let ghost f = |c: Components| input_comps(*ev, c);
            proof {
                lemma_inputs_applied_wf(s0, inputs@.subrange(0, n as int), self.world.next_id);
            }
            let mut i: usize = 0;
            while i < self.world.slots.len()
                invariant
                    i <= self.world.slots@.len(),
                    self.world.slots@.len() == before.len(),
                    forall|k: int|
                        0 <= k < i ==> #[trigger] self.world.slots@[k] == (Slot {
                            entity: before[k].entity,
                            comps: input_comps(*ev, before[k].comps),
                        }),
                    forall|k: int|
                        i <= k < self.world.slots@.len() ==> #[trigger] self.world.slots@[k]
                            == before[k],
                    self.world.next_id == old(self).world.next_id,
                    self.events == old(self).events,
                    self.rng == old(self).rng,
                    self.tick == old(self).tick,
                    self.nav_grid == old(self).nav_grid,
                decreases self.world.slots@.len() - i,
            {
                apply_input_entity(ev, &mut self.world.slots[i].comps);
                i = i + 1;
            }
            proof {
                let pre = inputs@.subrange(0, n as int);
                let post = inputs@.subrange(0, n + 1);
                assert(post.drop_last() =~= pre);
                assert(post.last() == *ev);
                assert(self.world.slots@ =~= map_comps(before, f));
            }
            n = n + 1;
        }
        proof {
            assert(inputs@.subrange(0, inputs@.len() as int) =~= inputs@);
            lemma_inputs_applied_wf(s0, inputs@, self.world.next_id);
        }
    }

    /// Runs one whole tick on the given inputs.
    ///
    /// A damage computation that leaves the `i32` range or a tick counter at
    /// its maximum would overflow; `requires` leaves those states out.
    /// `tick_fits` tests bounds under which no damage computation overflows.
    pub fn run_tick(&mut self, inputs: &[InputEvent])
        requires
            old(self).world.wf(),
            old(self).tick < u64::MAX,
            old(self).nav_grid.cols() >= 1,
            old(self).nav_grid.rows() >= 1,
            old(self).nav_grid.cell_len().bits != 0,
            forall|s2: Seq<Slot>|
                #[trigger] paths_rel(
                    &old(self).nav_grid,
                    inputs_applied(old(self).world.view(), inputs@),
                    s2,
                ) ==> tick_after_paths(
                    s2,
                    old(self).world.next(),
                    old(self).rng.state,
                    old(self).events.damage.view(),
                    old(self).events.deaths.view(),
                ).3,
        ensures
            final(self).world.wf(),
            final(self).tick == old(self).tick + 1,
            final(self).events.is_empty_bus(),
            final(self).nav_grid == old(self).nav_grid,
            exists|s2: Seq<Slot>|
                #[trigger] paths_rel(
                    &old(self).nav_grid,
                    inputs_applied(old(self).world.view(), inputs@),
                    s2,
                ) && ({
                    let t = tick_after_paths(
                        s2,
                        old(self).world.next(),
                        old(self).rng.state,
                        old(self).events.damage.view(),
                        old(self).events.deaths.view(),
                    );
                    &&& final(self).world.view() == t.0
                    &&& final(self).world.next() == t.1
                    &&& final(self).rng.state == t.2
                }),
    {
        let ghost dmg0 = self.events.damage.view();
        let ghost deaths0 = self.events.deaths.view();
        let ghost rng0 = self.rng.state;
        let ghost next0 = self.world.next_id;
        // 1. Inputs → components (move targets, abilities).
        self.apply_inputs(inputs);
        // 2. Pathfinding: move target → path of waypoints (only on change).
        pathfinding_system(&mut self.world, &self.nav_grid);
        let ghost s2 = self.world.slots@;
        assert(paths_rel(&old(self).nav_grid, inputs_applied(old(self).world.view(), inputs@), s2));
        // 3. Movement.
        move_target_system(&mut self.world);
        movement_system(&mut self.world);
        clear_arrived_targets(&mut self.world);
        // 4. Pending abilities → effects.
        ability_system(&mut self.world, &mut self.events);
        // 5. Cooldowns (auto-attack and abilities).
        cooldown_system(&mut self.world);
        ability_cooldown_system(&mut self.world);
        // 6. Auto-attack → damage events.
        auto_attack_system(&mut self.world, &mut self.rng, &mut self.events);
        // 7. Damage → death events.
        health_system(&mut self.world, &mut self.events);
        // 8. Deaths → marked dying.
        death_system(&mut self.world, &mut self.events);
        // 9. Buffs and crowd control.
        crowd_control_system(&mut self.world);
        buff_system(&mut self.world, &mut self.events);
        // 10. Remove dead entities.
        cleanup_system(&mut self.world);
        // Leftover events do not carry over to the next tick.
        self.events.clear();
        self.tick = self.tick + 1;
        proof {
            let t = tick_after_paths(s2, next0, rng0, dmg0, deaths0);
            assert(self.world.view() == t.0);
        }
    }

    /// Fast FNV-1a hash of the state, to detect divergence between peers.
    pub fn checksum(&self) -> (r: u64)
        ensures
            r == fnv1a(0xcbf29ce484222325, checksum_bytes(self.world.view())),
    {
        let mut buf: Vec<u8> = Vec::new();
        let mut i: usize = 0;
        while i < self.world.slots.len()
            invariant
                i <= self.world.slots@.len(),
                buf@ == checksum_bytes(self.world.slots@.subrange(0, i as int)),
            decreases self.world.slots@.len() - i,
        {
            let slot = &self.world.slots[i];
            proof {
                let pre = self.world.slots@.subrange(0, i + 1);
                assert(pre.drop_last() =~= self.world.slots@.subrange(0, i as int));
            }
            match (slot.comps.position, slot.comps.health) {
                (Some(p), Some(h)) => {
                    push_le(&mut buf, slot.entity.id as u64, 4);
                    push_le(&mut buf, p.0.x.to_bits() as u64, 8);
                    push_le(&mut buf, h.current as u32 as u64, 4);
                },
                _ => {},
            }
            i = i + 1;
        }
        proof {
            assert(self.world.slots@.subrange(0, self.world.slots@.len() as int) =~= self.world.slots@);
        }
        let mut hash: u64 = 0xcbf29ce484222325;
        let mut j: usize = 0;
        while j < buf.len()
            invariant
                j <= buf@.len(),
                hash == fnv1a(0xcbf29ce484222325, buf@.subrange(0, j as int)),
            decreases buf@.len() - j,
        {
            proof {
                let pre = buf@.subrange(0, j + 1);
                assert(pre.drop_last() =~= buf@.subrange(0, j as int));
            }
            hash = hash ^ (buf[j] as u64);
            hash = ((hash as u128 * 0x100000001b3u128) % 0x1_0000_0000_0000_0000u128) as u64;
            j = j + 1;
        }
        proof {
            assert(buf@.subrange(0, buf@.len() as int) =~= buf@);
        }
        hash
    }

    /// Snapshot bytes: tick, random state, then each entity with a position
    /// and health (id, x, y, current and maximum health), all little-endian.
    pub fn serialize(&self) -> (r: Vec<u8>)
        ensures
            r@ == serialized(self.tick, self.rng.state, self.world.view()),
    {
        let mut buf: Vec<u8> = Vec::new();
        push_le(&mut buf, self.tick, 8);
        push_le(&mut buf, self.rng.state(), 8);
        let ghost head = buf@;
        let mut i: usize = 0;
        while i < self.world.slots.len()
            invariant
                i <= self.world.slots@.len(),
                buf@ == head + snapshot_bytes(self.world.slots@.subrange(0, i as int)),
            decreases self.world.slots@.len() - i,
        {
            let slot = &self.world.slots[i];
            proof {
                let pre = self.world.slots@.subrange(0, i + 1);
                assert(pre.drop_last() =~= self.world.slots@.subrange(0, i as int));
            }
            match (slot.comps.position, slot.comps.health) {
                (Some(p), Some(h)) => {
                    let ghost b0 = buf@;
                    push_le(&mut buf, slot.entity.id as u64, 4);
                    push_le(&mut buf, p.0.x.to_bits() as u64, 8);
                    push_le(&mut buf, p.0.y.to_bits() as u64, 8);
                    push_le(&mut buf, h.current as u32 as u64, 4);
                    push_le(&mut buf, h.max as u32 as u64, 4);
                    proof {
                        assert(buf@ =~= head + snapshot_bytes(
                            self.world.slots@.subrange(0, i + 1),
                        ));
                    }
                },
                _ => {},
            }
            i = i + 1;
        }
        proof {
            assert(self.world.slots@.subrange(0, self.world.slots@.len() as int) =~= self.world.slots@);
        }
        buf
    }

    /// A simulation restored from a snapshot: tick and random state only
    /// (the entities are not restored). Fewer than 16 bytes give a fresh
    /// simulation with seed 0.
    pub fn deserialize(data: &[u8]) -> (r: SimWorld)
        ensures
            r.world.wf(),
            r.world.view().len() == 0,
            r.world.next() == 0,
            r.events.is_empty_bus(),
            r.nav_grid.cols() == 128,
            r.nav_grid.rows() == 128,
            r.nav_grid.cell_len() == (Fixed { bits: 0x1_0000_0000 }),
            r.nav_grid.corner() == (Vec2Fixed { x: Fixed { bits: 0 }, y: Fixed { bits: 0 } }),
            forall|x: int, y: int| r.nav_grid.inside(x, y) ==> !r.nav_grid.blocked_at(x, y),
            data@.len() < 16 ==> r.tick == 0 && r.rng.state == 0,
            data@.len() >= 16 ==> r.tick == le_value(data@.subrange(0, 8)) && r.rng.state
                == le_value(data@.subrange(8, 16)),
    {
        if data.len() < 16 {
            return SimWorld::new(0);
        }
        let tick = read_le_u64(data, 0);
        let rng_state = read_le_u64(data, 8);
        let mut sim = SimWorld::new(0);
        sim.tick = tick;
        sim.rng.restore(rng_state);
        sim
    }

    pub fn rng_state(&self) -> (r: u64)
        ensures
            r == self.rng.state,
    {
        self.rng.state()
    }
}

impl Clone for SimWorld {
    /// A copy through a snapshot: tick and random state are kept, the
    /// navigation grid is copied, and the entities are not (the snapshot
    /// does not hold them).
    fn clone(&self) -> (r: Self)
        ensures
            r.tick == self.tick,
            r.rng.state == self.rng.state,
            r.world.wf(),
            r.world.view().len() == 0,
            r.events.is_empty_bus(),
            r.nav_grid.cols() == self.nav_grid.cols(),
            r.nav_grid.rows() == self.nav_grid.rows(),
            r.nav_grid.cell_len() == self.nav_grid.cell_len(),
            r.nav_grid.corner() == self.nav_grid.corner(),
            forall|x: int, y: int| r.nav_grid.blocked_at(x, y) == self.nav_grid.blocked_at(x, y),
    {
        let data = self.serialize();
        proof {
            law_snapshot_restores_tick_and_rng(self.tick, self.rng.state, self.world.view());
        }
        let mut s = SimWorld::deserialize(data.as_slice());
        s.nav_grid = self.nav_grid.clone();
        s
    }
}

} // verus!
