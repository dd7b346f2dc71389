//! Minion AI: lane waypoints and aggro.
//!
//! Minions follow the waypoints of their lane. When an enemy enters attack
//! range they lock an `AiTarget` on it; when it dies or leaves the range
//! they go back to the lane. Lanes are data handed in by the game.
use vstd::prelude::*;

use crate::game::base::ecs::{Components, Entity, Slot, World, slots_wf};
use crate::game::base::types::{Fixed, Vec2Fixed, fx_mul, v_dist_sq};
use crate::game::sim::components::{AiTarget, MoveTarget, WaypointIndex};
use crate::game::sim::systems::combat::{living_enemy_in_range, no_enemy_in_range};
use crate::game::sim::systems::movement::{lemma_map_comps_wf, map_comps};

verus! {

// ─── Lane paths ─────────────────────────────────────────────────────────────
/// Lane paths configured by the game: index = lane id, each a linear
/// sequence of waypoints.
pub struct LanePaths(pub Vec<Vec<Vec2Fixed>>);

impl LanePaths {
    pub open spec fn lane(&self, lane_id: u8) -> Option<Seq<Vec2Fixed>> {
        if (lane_id as int) < self.0@.len() {
            Some(self.0@[lane_id as int]@)
        } else {
            None
        }
    }

    pub fn default() -> (r: LanePaths)
        ensures
            r.0@.len() == 0,
    {
        LanePaths(Vec::new())
    }

    /// Waypoints of a lane, if it exists.
    pub fn get(&self, lane_id: u8) -> (r: Option<&[Vec2Fixed]>)
        ensures
            match r {
                Some(w) => self.lane(lane_id) == Some(w@),
                None => self.lane(lane_id) is None,
            },
    {
        let i = lane_id as usize;
        if i < self.0.len() {
            Some(self.0[i].as_slice())
        } else {
            None
        }
    }
}

// ─── Aggro ──────────────────────────────────────────────────────────────────
/// A potential aggro target: entity, position, team, dead.
pub type AggroCandidate = (Entity, Vec2Fixed, u8, bool);

/// Entities with position, team and health, in entity order.
pub open spec fn aggro_candidates(s: Seq<Slot>) -> Seq<AggroCandidate>
    decreases s.len(),
{
    if s.len() == 0 {
        Seq::empty()
    } else {
        let prev = aggro_candidates(s.drop_last());
        let c = s.last().comps;
        match (c.position, c.team, c.health) {
            (Some(p), Some(t), Some(h)) => prev.push((s.last().entity, p.0, t.0, h.current <= 0)),
            _ => prev,
        }
    }
}

/// The first candidate for entity `t`.
pub open spec fn find_candidate(cs: Seq<AggroCandidate>, n: int, t: Entity) -> Option<AggroCandidate>
    decreases n,
{
    if n <= 0 {
        None
    } else {
        let prev = find_candidate(cs, n - 1, t);
        if prev is None && cs[n - 1].0 == t {
            Some(cs[n - 1])
        } else {
            prev
        }
    }
}

/// A living enemy of `team`, other than `me`, within `range_sq` of `pos`.
pub open spec fn aggroable(c: AggroCandidate, me: Entity, pos: Vec2Fixed, team: u8, range_sq: Fixed) -> bool {
    c.2 != team && !c.3 && c.0 != me && v_dist_sq(pos, c.1).bits <= range_sq.bits
}

/// The nearest aggroable candidate among the first `n` (ties: lower id).
pub open spec fn nearest_enemy(
    cs: Seq<AggroCandidate>,
    n: int,
    me: Entity,
    pos: Vec2Fixed,
    team: u8,
    range_sq: Fixed,
) -> Option<AggroCandidate>
    decreases n,
{
    if n <= 0 {
        None
    } else {
        let prev = nearest_enemy(cs, n - 1, me, pos, team, range_sq);
        let c = cs[n - 1];
        if aggroable(c, me, pos, team, range_sq) && (prev is None || ({
            let dc = v_dist_sq(pos, c.1).bits;
            let dp = v_dist_sq(pos, (prev->0).1).bits;
            dc < dp || (dc == dp && c.0.id < (prev->0).0.id)
        })) {
            Some(c)
        } else {
            prev
        }
    }
}

/// Aggro of one entity: minions (position, team, attack range, waypoint
/// index) keep a target that is alive and in range, else lock the nearest
/// enemy in range, else drop their target.
pub open spec fn aggro_comps(cs: Seq<AggroCandidate>, e: Entity, c: Components) -> Components {
    match (c.position, c.team, c.attack_range, c.waypoint_index) {
        (Some(p), Some(t), Some(r), Some(_)) => {
            let range_sq = fx_mul(r.0, r.0);
            let keep = match c.ai_target {
                Some(at) => match find_candidate(cs, cs.len() as int, at.0) {
                    Some(tc) => !tc.3 && v_dist_sq(p.0, tc.1).bits <= range_sq.bits,
                    None => false,
                },
                None => false,
            };
            if keep {
                c
            } else {
                match nearest_enemy(cs, cs.len() as int, e, p.0, t.0, range_sq) {
                    Some(n) => Components { ai_target: Some(AiTarget(n.0)), ..c },
                    None => Components { ai_target: None, ..c },
                }
            }
        },
        _ => c,
    }
}

fn collect_candidates(world: &World) -> (r: Vec<AggroCandidate>)
    ensures
        r@ == aggro_candidates(world.view()),
{
    let mut out: Vec<AggroCandidate> = Vec::new();
    let mut i: usize = 0;
    while i < world.slots.len()
        invariant
            i <= world.slots@.len(),
            out@ == aggro_candidates(world.slots@.take(i as int)),
        decreases world.slots@.len() - i,
    {
        proof {
            assert(world.slots@.take(i + 1).drop_last() =~= world.slots@.take(i as int));
        }
        let c = &world.slots[i].comps;
        match (c.position, c.team, c.health) {
            (Some(p), Some(t), Some(h)) => {
                out.push((world.slots[i].entity, p.0, t.0, h.is_dead()));
            },
            _ => {},
        }
        i = i + 1;
    }
    proof {
        assert(world.slots@.take(world.slots@.len() as int) =~= world.slots@);
    }
    out
}

fn aggro_entity(cands: &Vec<AggroCandidate>, e: Entity, c: &mut Components)
    ensures
        *final(c) == aggro_comps(cands@, e, *old(c)),
{
    let (pos, team, range) = match (c.position, c.team, c.attack_range, c.waypoint_index) {
        (Some(p), Some(t), Some(r), Some(_)) => (p.0, t.0, r.0),
        _ => {
            return;
        },
    };
    let range_sq = range * range;
    let mut current: Option<AggroCandidate> = None;
    match c.ai_target {
        Some(at) => {
            let mut j: usize = 0;
            while j < cands.len()
                invariant
                    j <= cands@.len(),
                    current == find_candidate(cands@, j as int, at.0),
                decreases cands@.len() - j,
            {
                if current.is_none() && cands[j].0 == at.0 {
                    current = Some(cands[j]);
                }
                j = j + 1;
            }
        },
        None => {},
    }
    let keep = match current {
        Some(tc) => !tc.3 && pos.dist_sq(tc.1).bits <= range_sq.bits,
        None => false,
    };
    if keep {
        return;
    }
    let mut best: Option<AggroCandidate> = None;
    let mut j: usize = 0;
    while j < cands.len()
        invariant
            j <= cands@.len(),
            best == nearest_enemy(cands@, j as int, e, pos, team, range_sq),
        decreases cands@.len() - j,
    {
        let cand = cands[j];
        if cand.2 != team && !cand.3 && cand.0 != e && pos.dist_sq(cand.1).bits <= range_sq.bits {
            let better = match best {
                None => true,
                Some(b) => {
                    let dc = pos.dist_sq(cand.1).bits;
                    let db = pos.dist_sq(b.1).bits;
                    dc < db || (dc == db && cand.0.id < b.0.id)
                },
            };
            if better {
                best = Some(cand);
            }
        }
        j = j + 1;
    }
    match best {
        Some(n) => {
            c.ai_target = Some(AiTarget(n.0));
        },
        None => {
            c.ai_target = None;
        },
    }
}

/// Aggro for every minion, on the world as it stood when the pass began.
pub fn ai_aggro_system(world: &mut World)
    requires
        old(world).wf(),
    ensures
        final(world).wf(),
        final(world).next() == old(world).next(),
        final(world).view() == old(world).view().map_values(
            |x: Slot|
                Slot {
                    entity: x.entity,
                    comps: aggro_comps(aggro_candidates(old(world).view()), x.entity, x.comps),
                },
        ),
{
    let cands = collect_candidates(world);
    let ghost s0 = world.slots@;
    let ghost cs = cands@;
    let mut i: usize = 0;
    while i < world.slots.len()
        invariant
            i <= world.slots@.len(),
            world.slots@.len() == s0.len(),
            world.next_id == old(world).next_id,
            slots_wf(s0, world.next_id),
            cs == cands@,
            forall|k: int|
                0 <= k < i ==> #[trigger] world.slots@[k] == (Slot {
                    entity: s0[k].entity,
                    comps: aggro_comps(cs, s0[k].entity, s0[k].comps),
                }),
            forall|k: int| i <= k < world.slots@.len() ==> #[trigger] world.slots@[k] == s0[k],
        decreases world.slots@.len() - i,
    {
        let e = world.slots[i].entity;
        aggro_entity(&cands, e, &mut world.slots[i].comps);
        i = i + 1;
    }
    proof {
        assert(world.slots@ =~= s0.map_values(
            |x: Slot| Slot { entity: x.entity, comps: aggro_comps(cs, x.entity, x.comps) },
        ));
        assert forall|a: int, b: int| 0 <= a < b < world.slots@.len() implies world.slots@[a].entity.id
            < world.slots@[b].entity.id by {
            assert(world.slots@[a].entity == s0[a].entity);
            assert(world.slots@[b].entity == s0[b].entity);
        }
        assert forall|a: int| 0 <= a < world.slots@.len() implies world.slots@[a].entity.id
            < world.next_id by {
            assert(world.slots@[a].entity == s0[a].entity);
        }
    }
}

// ─── Lane waypoints ─────────────────────────────────────────────────────────
/// The current lane waypoint of a minion, if its lane and index exist.
pub open spec fn lane_waypoint(lanes: Seq<Seq<Vec2Fixed>>, lane: u8, wp: u8) -> Option<Vec2Fixed> {
    if (lane as int) < lanes.len() && (wp as int) < lanes[lane as int].len() {
        Some(lanes[lane as int][wp as int])
    } else {
        None
    }
}

/// Waypoint handling of one entity: a minion without an `AiTarget` heads for
/// its current waypoint; a minion within distance 2 of its current waypoint
/// moves on to the next one (staying on the last).
pub open spec fn waypoint_comps(lanes: Seq<Seq<Vec2Fixed>>, c: Components) -> Components {
    let c1 = match (c.waypoint_index, c.lane_id) {
        (Some(wi), Some(l)) => if c.ai_target is None {
            match lane_waypoint(lanes, l.0, wi.0) {
                Some(t) => Components { move_target: Some(MoveTarget(t)), ..c },
                None => c,
            }
        } else {
            c
        },
        _ => c,
    };
    match (c1.position, c1.waypoint_index, c1.lane_id) {
        (Some(p), Some(wi), Some(l)) => match lane_waypoint(lanes, l.0, wi.0) {
            Some(t) => if v_dist_sq(p.0, t).bits < 0x4_0000_0000 {
                let len = lanes[l.0 as int].len();
                let max = (if len >= 1 { len - 1 } else { 0 }) as u8;
                let inc = if wi.0 < 255 { (wi.0 + 1) as u8 } else { 255u8 };
                Components {
                    waypoint_index: Some(WaypointIndex(if inc < max { inc } else { max })),
                    ..c1
                }
            } else {
                c1
            },
            None => c1,
        },
        _ => c1,
    }
}

fn waypoint_entity(lanes: &LanePaths, c: &mut Components)
    ensures
        *final(c) == waypoint_comps(lanes.0@.map_values(|v: Vec<Vec2Fixed>| v@), *old(c)),
{
    let ghost ls = lanes.0@.map_values(|v: Vec<Vec2Fixed>| v@);
    match (c.waypoint_index, c.lane_id) {
        (Some(wi), Some(l)) => {
            if c.ai_target.is_none() {
                match lanes.get(l.0) {
                    Some(wps) => {
                        if (wi.0 as usize) < wps.len() {
                            c.move_target = Some(MoveTarget(wps[wi.0 as usize]));
                        }
                    },
                    None => {},
                }
            }
        },
        _ => {},
    }
    let thresh = Fixed::from_bits(0x4_0000_0000);
    match (c.position, c.waypoint_index, c.lane_id) {
        (Some(p), Some(wi), Some(l)) => {
            match lanes.get(l.0) {
                Some(wps) => {
                    if (wi.0 as usize) < wps.len() {
                        let target = wps[wi.0 as usize];
                        let dx = p.0.x - target.x;
                        let dy = p.0.y - target.y;
                        if (dx * dx + dy * dy).bits < thresh.bits {
                            let max = wps.len().saturating_sub(1) as u8;
                            let inc = wi.0.saturating_add(1);
                            c.waypoint_index = Some(WaypointIndex(if inc < max { inc } else { max }));
                        }
                    }
                },
                None => {},
            }
        },
        _ => {},
    }
}

/// Lane waypoints for every minion (see [`waypoint_comps`]).
pub fn ai_waypoint_system(world: &mut World, lanes: &LanePaths)
    requires
        old(world).wf(),
    ensures
        final(world).wf(),
        final(world).next() == old(world).next(),
        final(world).view() == map_comps(
            old(world).view(),
            |c: Components| waypoint_comps(lanes.0@.map_values(|v: Vec<Vec2Fixed>| v@), c),
        ),
{
    let ghost ls = lanes.0@.map_values(|v: Vec<Vec2Fixed>| v@);
    let ghost s0 = world.slots@;
    let mut i: usize = 0;
    while i < world.slots.len()
        invariant
            i <= world.slots@.len(),
            world.slots@.len() == s0.len(),
            world.next_id == old(world).next_id,
            slots_wf(s0, world.next_id),
            ls == lanes.0@.map_values(|v: Vec<Vec2Fixed>| v@),
            forall|k: int|
                0 <= k < i ==> #[trigger] world.slots@[k] == (Slot {
                    entity: s0[k].entity,
                    comps: waypoint_comps(ls, s0[k].comps),
                }),
            forall|k: int| i <= k < world.slots@.len() ==> #[trigger] world.slots@[k] == s0[k],
        decreases world.slots@.len() - i,
    {
        waypoint_entity(lanes, &mut world.slots[i].comps);
        i = i + 1;
    }
    proof {
        let f = |c: Components| waypoint_comps(ls, c);
        lemma_map_comps_wf(s0, f, world.next_id);
        assert(world.slots@ =~= map_comps(s0, f));
    }
}


/// The aggro target is the nearest enemy: `nearest_enemy` gives an aggroable
/// candidate no farther than any other aggroable one, and of those as near,
/// the one with the lowest id; it gives nothing exactly when no candidate is
/// aggroable.
pub proof fn law_nearest_enemy_is_nearest(
    cs: Seq<AggroCandidate>,
    n: int,
    me: Entity,
    pos: Vec2Fixed,
    team: u8,
    range_sq: Fixed,
)
    requires
        0 <= n <= cs.len(),
    ensures
        ({
            let r = nearest_enemy(cs, n, me, pos, team, range_sq);
            &&& r is None <==> forall|j: int|
                0 <= j < n ==> !aggroable(#[trigger] cs[j], me, pos, team, range_sq)
            &&& r matches Some(c) ==> {
                &&& exists|i: int| 0 <= i < n && cs[i] == c
                &&& aggroable(c, me, pos, team, range_sq)
                &&& forall|j: int|
                    0 <= j < n && aggroable(#[trigger] cs[j], me, pos, team, range_sq) ==> {
                        let dc = v_dist_sq(pos, c.1).bits;
                        let dj = v_dist_sq(pos, cs[j].1).bits;
                        dc < dj || (dc == dj && c.0.id <= cs[j].0.id)
                    }
            }
        }),
    decreases n,
{
    if n > 0 {
        law_nearest_enemy_is_nearest(cs, n - 1, me, pos, team, range_sq);
        let prev = nearest_enemy(cs, n - 1, me, pos, team, range_sq);
        let r = nearest_enemy(cs, n, me, pos, team, range_sq);
        if r is Some && prev is Some && r != prev {
            let p = prev->0;
            let i = choose|i: int| 0 <= i < n - 1 && cs[i] == p;
            assert(cs[i] == p);
        }
        if r is Some && r == prev {
            let p = prev->0;
            let i = choose|i: int| 0 <= i < n - 1 && cs[i] == p;
            assert(cs[i] == p);
        }
        if r is Some && prev is None {
            assert(cs[n - 1] == r->0);
        }
    }
}


/// The aggro record of a slot.
pub open spec fn cand_of(x: Slot) -> AggroCandidate {
    let c = x.comps;
    (x.entity, (c.position->0).0, (c.team->0).0, (c.health->0).current <= 0)
}

proof fn lemma_candidates_sound(s: Seq<Slot>, k: int)
    requires
        0 <= k < aggro_candidates(s).len(),
    ensures
        exists|i: int|
            0 <= i < s.len() && s[i].comps.position is Some && s[i].comps.team is Some
                && s[i].comps.health is Some && aggro_candidates(s)[k] == #[trigger] cand_of(s[i]),
    decreases s.len(),
{
    let t = s.drop_last();
    let prev = aggro_candidates(t);
    if k < prev.len() {
        lemma_candidates_sound(t, k);
        let i = choose|i: int|
            0 <= i < t.len() && t[i].comps.position is Some && t[i].comps.team is Some
                && t[i].comps.health is Some && prev[k] == #[trigger] cand_of(t[i]);
        assert(t[i] == s[i]);
        assert(aggro_candidates(s)[k] == cand_of(s[i]));
    } else {
        assert(s[s.len() - 1] == s.last());
        assert(aggro_candidates(s)[k] == cand_of(s[s.len() - 1]));
    }
}

proof fn lemma_candidates_complete(s: Seq<Slot>, i: int)
    requires
        0 <= i < s.len(),
        s[i].comps.position is Some,
        s[i].comps.team is Some,
        s[i].comps.health is Some,
    ensures
        exists|k: int| 0 <= k < aggro_candidates(s).len() && aggro_candidates(s)[k] == #[trigger] cand_of(s[i]),
    decreases s.len(),
{
    let t = s.drop_last();
    let prev = aggro_candidates(t);
    if i < s.len() - 1 {
        assert(t[i] == s[i]);
        lemma_candidates_complete(t, i);
        let k = choose|k: int| 0 <= k < prev.len() && prev[k] == #[trigger] cand_of(t[i]);
        assert(aggro_candidates(s)[k] == prev[k]);
    } else {
        assert(s[i] == s.last());
        assert(aggro_candidates(s)[prev.len() as int] == cand_of(s[i]));
    }
}

proof fn lemma_find_candidate(cs: Seq<AggroCandidate>, n: int, t: Entity)
    requires
        0 <= n <= cs.len(),
    ensures
        find_candidate(cs, n, t) matches Some(c) ==> c.0 == t && exists|q: int| 0 <= q < n && cs[q] == c,
    decreases n,
{
    if n > 0 {
        lemma_find_candidate(cs, n - 1, t);
        if find_candidate(cs, n - 1, t) is Some {
            let c = find_candidate(cs, n - 1, t)->0;
            let q = choose|q: int| 0 <= q < n - 1 && cs[q] == c;
            assert(cs[q] == c);
        }
    }
}

/// A candidate record is aggroable exactly when its slot holds a living
/// enemy in range.
proof fn lemma_aggroable_slot(s: Seq<Slot>, i: int, me: Entity, pos: Vec2Fixed, team: u8, range: Fixed)
    requires
        0 <= i < s.len(),
        s[i].comps.position is Some,
        s[i].comps.team is Some,
        s[i].comps.health is Some,
    ensures
        aggroable(cand_of(s[i]), me, pos, team, fx_mul(range, range)) == living_enemy_in_range(
            s,
            i,
            me,
            pos,
            team,
            range,
        ),
{
}

/// The entity of slot `i` is alive and within `range` of `pos`.
pub open spec fn alive_in_range(s: Seq<Slot>, i: int, pos: Vec2Fixed, range: Fixed) -> bool {
    let c = s[i].comps;
    &&& 0 <= i < s.len()
    &&& c.position is Some
    &&& c.health is Some
    &&& (c.health->0).current > 0
    &&& v_dist_sq(pos, (c.position->0).0).bits <= fx_mul(range, range).bits
}

/// `e` is the nearest living enemy in range: one of them, and no other is
/// strictly nearer, nor as near with a lower id.
pub open spec fn is_nearest_enemy(s: Seq<Slot>, me: Entity, pos: Vec2Fixed, team: u8, range: Fixed, e: Entity) -> bool {
    exists|b: int|
        #![trigger living_enemy_in_range(s, b, me, pos, team, range)]
        living_enemy_in_range(s, b, me, pos, team, range) && s[b].entity == e && forall|j: int|
            #![trigger living_enemy_in_range(s, j, me, pos, team, range)]
            living_enemy_in_range(s, j, me, pos, team, range) ==> v_dist_sq(
                pos,
                (s[b].comps.position->0).0,
            ).bits < v_dist_sq(pos, (s[j].comps.position->0).0).bits || (v_dist_sq(
                pos,
                (s[b].comps.position->0).0,
            ).bits == v_dist_sq(pos, (s[j].comps.position->0).0).bits && e.id <= s[j].entity.id)
}

/// After aggro, a minion's target, if any, is alive and within its attack
/// range; a target it newly locks is the nearest living enemy in range
/// (ties to the lower id); and it has no target only when no living enemy
/// is in range. Entities that are not minions are left as they are.
pub proof fn law_aggro_targets_valid(s: Seq<Slot>, k: int)
    requires
        0 <= k < s.len(),
    ensures
        ({
            let x = s[k];
            let c = x.comps;
            let c2 = aggro_comps(aggro_candidates(s), x.entity, c);
            if c.position is Some && c.team is Some && c.attack_range is Some && c.waypoint_index is Some {
                let pos = (c.position->0).0;
                let team = (c.team->0).0;
                let range = (c.attack_range->0).0;
                &&& c2.ai_target matches Some(at) ==> exists|i: int|
                    #![trigger alive_in_range(s, i, pos, range)]
                    alive_in_range(s, i, pos, range) && s[i].entity == at.0
                &&& (c2.ai_target is Some && c2.ai_target != c.ai_target) ==> is_nearest_enemy(
                    s,
                    x.entity,
                    pos,
                    team,
                    range,
                    (c2.ai_target->0).0,
                )
                &&& c2.ai_target is None ==> no_enemy_in_range(s, x.entity, pos, team, range)
                &&& c2 == (Components { ai_target: c2.ai_target, ..c })
            } else {
                c2 == c
            }
        }),
{
    let x = s[k];
    let c = x.comps;
    let cs = aggro_candidates(s);
    if c.position is Some && c.team is Some && c.attack_range is Some && c.waypoint_index is Some {
        let pos = (c.position->0).0;
        let team = (c.team->0).0;
        let range = (c.attack_range->0).0;
        let r2 = fx_mul(range, range);
        let keep = match c.ai_target {
            Some(at) => match find_candidate(cs, cs.len() as int, at.0) {
                Some(tc) => !tc.3 && v_dist_sq(pos, tc.1).bits <= r2.bits,
                None => false,
            },
            None => false,
        };
        if keep {
            let at = c.ai_target->0;
            lemma_find_candidate(cs, cs.len() as int, at.0);
            let tc = find_candidate(cs, cs.len() as int, at.0)->0;
            let q = choose|q: int| 0 <= q < cs.len() && cs[q] == tc;
            lemma_candidates_sound(s, q);
            let i = choose|i: int|
                0 <= i < s.len() && s[i].comps.position is Some && s[i].comps.team is Some
                    && s[i].comps.health is Some && cs[q] == #[trigger] cand_of(s[i]);
            assert(alive_in_range(s, i, pos, range));
        } else {
            law_nearest_enemy_is_nearest(cs, cs.len() as int, x.entity, pos, team, r2);
            match nearest_enemy(cs, cs.len() as int, x.entity, pos, team, r2) {
                Some(n) => {
                    let q = choose|q: int| 0 <= q < cs.len() && cs[q] == n;
                    lemma_candidates_sound(s, q);
                    let b = choose|i: int|
                        0 <= i < s.len() && s[i].comps.position is Some && s[i].comps.team is Some
                            && s[i].comps.health is Some && cs[q] == #[trigger] cand_of(s[i]);
                    lemma_aggroable_slot(s, b, x.entity, pos, team, range);
                    assert(alive_in_range(s, b, pos, range));
                    assert forall|j: int|
                        #![trigger living_enemy_in_range(s, j, x.entity, pos, team, range)]
                        living_enemy_in_range(s, j, x.entity, pos, team, range) implies v_dist_sq(
                            pos,
                            (s[b].comps.position->0).0,
                        ).bits < v_dist_sq(pos, (s[j].comps.position->0).0).bits || (v_dist_sq(
                            pos,
                            (s[b].comps.position->0).0,
                        ).bits == v_dist_sq(pos, (s[j].comps.position->0).0).bits && n.0.id
                            <= s[j].entity.id) by {
                        lemma_candidates_complete(s, j);
                        let m = choose|m: int| 0 <= m < cs.len() && cs[m] == #[trigger] cand_of(s[j]);
                        lemma_aggroable_slot(s, j, x.entity, pos, team, range);
                        assert(aggroable(cs[m], x.entity, pos, team, r2));
                    }
                    assert(is_nearest_enemy(s, x.entity, pos, team, range, n.0));
                },
                None => {
                    assert forall|j: int|
                        #![trigger living_enemy_in_range(s, j, x.entity, pos, team, range)]
                        !living_enemy_in_range(s, j, x.entity, pos, team, range) by {
                        if living_enemy_in_range(s, j, x.entity, pos, team, range) {
                            lemma_candidates_complete(s, j);
                            let m = choose|m: int| 0 <= m < cs.len() && cs[m] == #[trigger] cand_of(s[j]);
                            lemma_aggroable_slot(s, j, x.entity, pos, team, range);
                            assert(aggroable(cs[m], x.entity, pos, team, r2));
                        }
                    }
                },
            }
        }
    }
}

} // verus!
