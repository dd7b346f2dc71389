use pixm::game::base::ecs::{Components, Entity, World};
use pixm::game::base::events::{DeathEvent, EventBus};
use pixm::game::base::types::{Fixed, Vec2Fixed};
use pixm::game::sim::components::{
    AbilityCooldowns, AbilityDef, AbilityEffect, AbilitySlots, AiTarget, AttackCooldown,
    AttackDamage, AttackRange, AttackSpeed, Buff, CcKind, CritChance, CrowdControl, Health,
    LaneId, MoveSpeed, MoveTarget, Path, PendingAbility, Position, Projectile, ProjectileTarget,
    Team, Velocity, WaypointIndex,
};
use pixm::game::sim::rng::DeterministicRng;
use pixm::game::sim::systems::abilities::ability_system;
use pixm::game::sim::systems::ai::{LanePaths, ai_aggro_system, ai_waypoint_system};
use pixm::game::sim::systems::buffs::{buff_system, crowd_control_system};
use pixm::game::sim::systems::combat::{
    auto_attack_system, cleanup_system, death_system, health_system,
};
use pixm::game::sim::systems::movement::{move_target_system, movement_system};
use pixm::game::sim::systems::projectiles::projectile_system;

fn fx(n: i32) -> Fixed {
    Fixed::from_num(n)
}

fn v(x: i32, y: i32) -> Vec2Fixed {
    Vec2Fixed::new(fx(x), fx(y))
}

fn comps(f: impl FnOnce(&mut Components)) -> Components {
    let mut c = Components::empty();
    f(&mut c);
    c
}

fn update(world: &mut World, e: Entity, f: impl FnOnce(&mut Components)) {
    let mut c = world.get(e).unwrap().clone();
    f(&mut c);
    assert!(world.set(e, c));
}

// ─── abilities ──────────────────────────────────────────────────────────────

fn spawn_hero(world: &mut World, x: i32, y: i32, team: u8) -> Entity {
    world.spawn(comps(|c| {
        c.position = Some(Position(v(x, y)));
        c.health = Some(Health::new(100));
        c.team = Some(Team(team));
        c.ability_slots = Some(AbilitySlots::default());
        c.ability_cooldowns = Some(AbilityCooldowns::default());
    }))
}

fn q_slot() -> AbilityDef {
    AbilityDef {
        range: fx(200),
        cooldown: 60,
        effect: AbilityEffect::InstantDamage { amount: 50, hit_radius: fx(40), cc: None },
    }
}

#[test]
fn instant_damage_hits_enemy() {
    let mut world = World::new();
    let mut events = EventBus::new();

    let caster = spawn_hero(&mut world, 0, 0, 0);
    let target = spawn_hero(&mut world, 100, 0, 1);

    update(&mut world, caster, |c| {
        c.ability_slots.as_mut().unwrap().0[0] = Some(q_slot());
        c.pending_ability = Some(PendingAbility { slot: 0, target_x: fx(100), target_y: fx(0) });
    });

    ability_system(&mut world, &mut events);

    let dmgs = events.damage.drain();
    assert_eq!(dmgs.len(), 1);
    assert_eq!(dmgs[0].target, target);
    assert_eq!(dmgs[0].amount, 50);
}

#[test]
fn ability_blocked_by_stun() {
    let mut world = World::new();
    let mut events = EventBus::new();

    let caster = spawn_hero(&mut world, 0, 0, 0);
    spawn_hero(&mut world, 50, 0, 1);

    update(&mut world, caster, |c| {
        c.ability_slots.as_mut().unwrap().0[0] = Some(q_slot());
        c.crowd_control = Some(CrowdControl { kind: CcKind::Stun, ticks_remaining: 5 });
        c.pending_ability = Some(PendingAbility { slot: 0, target_x: fx(50), target_y: fx(0) });
    });

    ability_system(&mut world, &mut events);

    assert_eq!(events.damage.len(), 0);
}

#[test]
fn cooldown_prevents_double_cast() {
    let mut world = World::new();
    let mut events = EventBus::new();

    let caster = spawn_hero(&mut world, 0, 0, 0);
    spawn_hero(&mut world, 50, 0, 1);
    update(&mut world, caster, |c| {
        c.ability_slots.as_mut().unwrap().0[0] = Some(q_slot());
        c.pending_ability = Some(PendingAbility { slot: 0, target_x: fx(50), target_y: fx(0) });
    });

    // First cast.
    ability_system(&mut world, &mut events);
    let _ = events.damage.drain().len();

    // Second cast at once: the cooldown is running.
    update(&mut world, caster, |c| {
        c.pending_ability = Some(PendingAbility { slot: 0, target_x: fx(50), target_y: fx(0) });
    });
    ability_system(&mut world, &mut events);
    assert_eq!(events.damage.len(), 0, "the second cast must be blocked by the cooldown");
}

// ─── AI ─────────────────────────────────────────────────────────────────────

fn spawn_lane_minion(world: &mut World, pos: (i32, i32), team: u8, lane: u8) -> Entity {
    world.spawn(comps(|c| {
        c.position = Some(Position(v(pos.0, pos.1)));
        c.team = Some(Team(team));
        c.attack_range = Some(AttackRange(fx(5)));
        c.attack_damage = Some(AttackDamage(10));
        c.attack_speed = Some(AttackSpeed(60));
        c.attack_cooldown = Some(AttackCooldown(0));
        c.health = Some(Health::new(200));
        c.waypoint_index = Some(WaypointIndex(0));
        c.lane_id = Some(LaneId(lane));
    }))
}

fn spawn_enemy(world: &mut World, pos: (i32, i32), team: u8) -> Entity {
    world.spawn(comps(|c| {
        c.position = Some(Position(v(pos.0, pos.1)));
        c.team = Some(Team(team));
        c.health = Some(Health::new(100));
    }))
}

#[test]
fn aggro_locks_nearest_enemy_in_range() {
    let mut world = World::new();
    let minion = spawn_lane_minion(&mut world, (0, 0), 0, 0);
    let enemy = spawn_enemy(&mut world, (3, 0), 1);

    ai_aggro_system(&mut world);

    let target = world.get(minion).unwrap().ai_target.unwrap();
    assert_eq!(target.0, enemy);
}

#[test]
fn aggro_ignores_out_of_range_enemy() {
    let mut world = World::new();
    let minion = spawn_lane_minion(&mut world, (0, 0), 0, 0);
    spawn_enemy(&mut world, (10, 0), 1);

    ai_aggro_system(&mut world);

    assert!(world.get(minion).unwrap().ai_target.is_none(), "no target out of range");
}

#[test]
fn aggro_clears_when_enemy_dies() {
    let mut world = World::new();
    let minion = spawn_lane_minion(&mut world, (0, 0), 0, 0);
    let enemy = spawn_enemy(&mut world, (3, 0), 1);

    ai_aggro_system(&mut world);
    assert!(world.get(minion).unwrap().ai_target.is_some());

    update(&mut world, enemy, |c| c.health.as_mut().unwrap().current = 0);

    ai_aggro_system(&mut world);
    assert!(world.get(minion).unwrap().ai_target.is_none(), "aggro must clear once the enemy is dead");
}

#[test]
fn aggro_prefers_nearest_then_lowest_id() {
    let mut world = World::new();
    let minion = spawn_lane_minion(&mut world, (0, 0), 0, 0);
    let far = spawn_enemy(&mut world, (4, 0), 1);
    let near_a = spawn_enemy(&mut world, (0, 2), 1);
    let _near_b = spawn_enemy(&mut world, (2, 0), 1);
    let _ = far;
    ai_aggro_system(&mut world);
    assert_eq!(world.get(minion).unwrap().ai_target.unwrap().0, near_a);
}

#[test]
fn waypoint_sets_move_target() {
    let mut world = World::new();
    let minion = spawn_lane_minion(&mut world, (0, 0), 0, 0);

    let lanes = LanePaths(vec![vec![v(10, 0)]]);

    ai_waypoint_system(&mut world, &lanes);

    let mt = world.get(minion).unwrap().move_target.unwrap();
    assert_eq!(mt.0.x, fx(10));
}

#[test]
fn waypoint_does_not_move_when_in_combat() {
    let mut world = World::new();
    let minion = spawn_lane_minion(&mut world, (0, 0), 0, 0);
    let enemy = spawn_enemy(&mut world, (3, 0), 1);
    update(&mut world, minion, |c| c.ai_target = Some(AiTarget(enemy)));

    let lanes = LanePaths(vec![vec![v(10, 0)]]);

    ai_waypoint_system(&mut world, &lanes);

    assert!(world.get(minion).unwrap().move_target.is_none());
}

#[test]
fn waypoint_index_advances_on_arrival() {
    let mut world = World::new();
    let minion = spawn_lane_minion(&mut world, (10, 0), 0, 0);

    let lanes = LanePaths(vec![vec![v(10, 0), v(20, 0)]]);

    ai_waypoint_system(&mut world, &lanes);

    let wi = world.get(minion).unwrap().waypoint_index.unwrap();
    assert_eq!(wi.0, 1, "must move on to wp1");
}

// ─── buffs ──────────────────────────────────────────────────────────────────

#[test]
fn cc_decrements_and_removes() {
    let mut world = World::new();
    let e = world.spawn(comps(|c| {
        c.crowd_control = Some(CrowdControl { kind: CcKind::Stun, ticks_remaining: 2 })
    }));

    crowd_control_system(&mut world);
    assert!(world.get(e).unwrap().crowd_control.is_some());
    assert_eq!(world.get(e).unwrap().crowd_control.unwrap().ticks_remaining, 1);

    crowd_control_system(&mut world);
    assert!(world.get(e).unwrap().crowd_control.is_none(), "CC must be removed on expiry");
}

#[test]
fn buff_emits_event_on_expiry() {
    let mut world = World::new();
    let mut events = EventBus::new();
    let e = world.spawn(comps(|c| {
        c.buff = Some(Buff { id: 7, stacks: 1, ticks_remaining: 1, magnitude: 10 })
    }));

    buff_system(&mut world, &mut events);

    assert!(world.get(e).unwrap().buff.is_none(), "the buff must be removed");
    let emitted = events.buffs.drain();
    assert_eq!(emitted.len(), 1);
    assert_eq!(emitted[0].buff_id, 7);
    assert!(!emitted[0].applied);
}

// ─── combat ─────────────────────────────────────────────────────────────────

fn make_world_with_two_entities() -> (World, Entity, Entity) {
    let mut world = World::new();
    let a = world.spawn(comps(|c| {
        c.position = Some(Position(Vec2Fixed::zero()));
        c.team = Some(Team(0));
        c.attack_range = Some(AttackRange(fx(5)));
        c.attack_damage = Some(AttackDamage(100));
        c.attack_speed = Some(AttackSpeed(60));
        c.attack_cooldown = Some(AttackCooldown(0));
        c.crit_chance = Some(CritChance(0));
        c.health = Some(Health::new(500));
    }));
    let b = world.spawn(comps(|c| {
        c.position = Some(Position(Vec2Fixed::zero()));
        c.team = Some(Team(1));
        c.health = Some(Health::new(200));
    }));
    (world, a, b)
}

#[test]
fn auto_attack_deals_damage() {
    let (mut world, _a, b) = make_world_with_two_entities();
    let mut rng = DeterministicRng::new(42);
    let mut events = EventBus::new();

    auto_attack_system(&mut world, &mut rng, &mut events);
    health_system(&mut world, &mut events);

    let hp = world.get(b).unwrap().health.unwrap();
    assert!(hp.current < 200, "the target must have taken damage");
    assert_eq!(hp.current, 100);
}

#[test]
fn dead_entity_cleaned_up() {
    let mut world = World::new();
    let e = world.spawn(comps(|c| {
        c.health = Some(Health::new(1));
        c.team = Some(Team(0));
    }));
    let mut events = EventBus::new();

    events.deaths.emit(DeathEvent { entity: e, killer: e });
    death_system(&mut world, &mut events);
    cleanup_system(&mut world);

    assert!(world.contains(e) == false);
}

#[test]
fn lethal_damage_emits_death_and_clamps_health() {
    let (mut world, a, b) = make_world_with_two_entities();
    let mut events = EventBus::new();
    events.damage.emit(pixm::game::base::events::DamageEvent { source: a, target: b, amount: 250 });
    health_system(&mut world, &mut events);
    assert_eq!(world.get(b).unwrap().health.unwrap().current, 0);
    let deaths = events.deaths.drain();
    assert_eq!(deaths.len(), 1);
    assert_eq!(deaths[0].entity, b);
    assert_eq!(deaths[0].killer, a);
}

// ─── movement ───────────────────────────────────────────────────────────────

fn mover(f: impl FnOnce(&mut Components)) -> Components {
    comps(|c| {
        c.position = Some(Position(v(0, 0)));
        c.velocity = Some(Velocity::default());
        c.move_speed = Some(MoveSpeed(fx(2)));
        f(c);
    })
}

#[test]
fn entity_moves_toward_target() {
    let mut world = World::new();
    let e = world.spawn(mover(|c| c.move_target = Some(MoveTarget(v(10, 0)))));

    move_target_system(&mut world);
    movement_system(&mut world);

    let p = world.get(e).unwrap().position.unwrap();
    assert!(p.0.x > Fixed::zero(), "the entity must have advanced along x");
    assert_eq!(p.0.x, fx(2));
}

#[test]
fn rooted_entity_does_not_move() {
    let mut world = World::new();
    let e = world.spawn(mover(|c| {
        c.move_target = Some(MoveTarget(v(10, 0)));
        c.crowd_control = Some(CrowdControl { kind: CcKind::Root, ticks_remaining: 5 });
    }));

    move_target_system(&mut world);
    movement_system(&mut world);

    let p = world.get(e).unwrap().position.unwrap();
    assert_eq!(p.0.x, Fixed::zero(), "a rooted entity must not move");
}

#[test]
fn follows_path_waypoints() {
    let mut world = World::new();
    let path = Path { waypoints: vec![v(5, 0), v(10, 0)], current: 0, destination: v(10, 0) };
    let e = world.spawn(mover(|c| {
        c.move_target = Some(MoveTarget(v(10, 0)));
        c.path = Some(path);
    }));

    for _ in 0..10 {
        move_target_system(&mut world);
        movement_system(&mut world);
    }

    let p = world.get(e).unwrap().position.unwrap();
    assert!(p.0.x > fx(0), "must have advanced");
}

#[test]
fn path_removed_when_exhausted() {
    let mut world = World::new();
    let path = Path { waypoints: vec![v(1, 0)], current: 0, destination: v(1, 0) };
    let e = world.spawn(mover(|c| {
        c.move_target = Some(MoveTarget(v(1, 0)));
        c.path = Some(path);
    }));

    move_target_system(&mut world);

    assert!(world.get(e).unwrap().path.is_none(), "the path must be removed once exhausted");
}

// ─── projectiles ────────────────────────────────────────────────────────────

fn shooter(world: &mut World) -> Entity {
    world.spawn(comps(|c| {
        c.position = Some(Position(v(0, 0)));
        c.team = Some(Team(0));
    }))
}

fn projectile_at(x: i32, proj: Projectile) -> Components {
    comps(|c| {
        c.position = Some(Position(v(x, 0)));
        c.velocity = Some(Velocity::default());
        c.projectile = Some(proj);
    })
}

#[test]
fn linear_hits_nearby_enemy() {
    let mut world = World::new();
    let mut events = EventBus::new();

    let owner = shooter(&mut world);
    let target = spawn_enemy(&mut world, (15, 0), 1);

    world.spawn(projectile_at(5, Projectile {
        owner,
        damage: 60,
        speed: fx(10),
        target: ProjectileTarget::Point(v(30, 0)),
    }));

    projectile_system(&mut world, &mut events);

    let dmgs = events.damage.drain();
    assert_eq!(dmgs.len(), 1);
    assert_eq!(dmgs[0].target, target);
    assert_eq!(dmgs[0].amount, 60);
}

#[test]
fn linear_despawns_at_endpoint() {
    let mut world = World::new();
    let mut events = EventBus::new();

    let owner = shooter(&mut world);
    let proj = world.spawn(projectile_at(100, Projectile {
        owner,
        damage: 50,
        speed: fx(10),
        target: ProjectileTarget::Point(v(100, 0)),
    }));

    projectile_system(&mut world, &mut events);

    assert!(world.get(proj).unwrap().dying.is_some(), "must be marked dying at its endpoint");
}

#[test]
fn homing_tracks_and_hits() {
    let mut world = World::new();
    let mut events = EventBus::new();

    let owner = shooter(&mut world);
    let target = spawn_enemy(&mut world, (15, 0), 1);

    world.spawn(projectile_at(5, Projectile {
        owner,
        damage: 80,
        speed: fx(10),
        target: ProjectileTarget::Entity(target),
    }));

    projectile_system(&mut world, &mut events);

    let dmgs = events.damage.drain();
    assert_eq!(dmgs.len(), 1);
    assert_eq!(dmgs[0].target, target);
}

#[test]
fn projectile_not_owned_team_safe() {
    let mut world = World::new();
    let mut events = EventBus::new();

    let owner = shooter(&mut world);
    let _friendly = spawn_enemy(&mut world, (5, 0), 0);

    world.spawn(projectile_at(0, Projectile {
        owner,
        damage: 50,
        speed: fx(5),
        target: ProjectileTarget::Point(v(20, 0)),
    }));

    projectile_system(&mut world, &mut events);
    assert_eq!(events.damage.len(), 0, "must not hit allies");
}

#[test]
fn homing_steers_toward_distant_target() {
    let mut world = World::new();
    let mut events = EventBus::new();
    let owner = shooter(&mut world);
    let target = spawn_enemy(&mut world, (100, 0), 1);
    let proj = world.spawn(projectile_at(0, Projectile {
        owner,
        damage: 80,
        speed: fx(10),
        target: ProjectileTarget::Entity(target),
    }));
    projectile_system(&mut world, &mut events);
    assert_eq!(events.damage.len(), 0);
    let vel = world.get(proj).unwrap().velocity.unwrap();
    assert_eq!(vel.0, v(10, 0));
}

#[test]
fn area_damage_hits_enemies_closest_first() {
    let mut world = World::new();
    let mut events = EventBus::new();
    let caster = spawn_hero(&mut world, 0, 0, 0);
    let far = spawn_hero(&mut world, 60, 0, 1);
    let near = spawn_hero(&mut world, 20, 0, 1);
    let _ally = spawn_hero(&mut world, 10, 0, 0);
    let mid = spawn_hero(&mut world, 0, 40, 1);
    let _out = spawn_hero(&mut world, 90, 0, 1);

    update(&mut world, caster, |c| {
        c.ability_slots.as_mut().unwrap().0[1] = Some(AbilityDef {
            range: fx(100),
            cooldown: 10,
            effect: AbilityEffect::AreaDamage { radius: fx(70), amount: 30 },
        });
        c.pending_ability = Some(PendingAbility { slot: 1, target_x: fx(0), target_y: fx(0) });
    });

    ability_system(&mut world, &mut events);

    let hits: Vec<Entity> = events.damage.drain().iter().map(|d| d.target).collect();
    assert_eq!(hits, vec![near, mid, far]);
    assert_eq!(world.get(caster).unwrap().ability_cooldowns.unwrap().0[1], 10);
}
