use pixm::game::base::ecs::{Components, Entity, World};
use pixm::game::base::types::{Fixed, Vec2Fixed};
use pixm::game::sim::components::{MoveSpeed, MoveTarget, Path, Position, Velocity};
use pixm::game::sim::pathfinding::astar::find_path;
use pixm::game::sim::pathfinding::grid::NavigationGrid;
use pixm::game::sim::pathfinding::pathfinding_system;

fn fx(n: i32) -> Fixed {
    Fixed::from_num(n)
}

fn v(x: i32, y: i32) -> Vec2Fixed {
    Vec2Fixed::new(fx(x), fx(y))
}

fn path_of(world: &World, e: Entity) -> Option<Path> {
    world.get(e).unwrap().path.clone()
}

fn spawn_mover(world: &mut World, target: Vec2Fixed) -> Entity {
    let mut c = Components::empty();
    c.position = Some(Position(v(0, 0)));
    c.velocity = Some(Velocity::default());
    c.move_target = Some(MoveTarget(target));
    c.move_speed = Some(MoveSpeed(fx(2)));
    world.spawn(c)
}

// ─── A* ─────────────────────────────────────────────────────────────────────

#[test]
fn straight_line_no_obstacles() {
    let path = find_path(|_, _| false, 16, 16, (0, 0), (5, 0));
    assert!(!path.is_empty());
    assert_eq!(*path.last().unwrap(), (5, 0));
}

#[test]
fn same_cell_returns_empty() {
    let path = find_path(|_, _| false, 16, 16, (3, 3), (3, 3));
    assert!(path.is_empty());
}

#[test]
fn wall_detour() {
    let blocked = |x: i32, y: i32| x == 2 && y < 4;
    let path = find_path(blocked, 16, 16, (0, 2), (4, 2));
    assert!(!path.is_empty());
    assert_eq!(*path.last().unwrap(), (4, 2));
    assert!(path.iter().all(|(x, y)| !blocked(*x, *y)));
}

#[test]
fn deterministic_same_output() {
    let a = find_path(|_, _| false, 32, 32, (0, 0), (10, 10));
    let b = find_path(|_, _| false, 32, 32, (0, 0), (10, 10));
    assert_eq!(a, b);
}

#[test]
fn straight_path_is_shortest() {
    let path = find_path(|_, _| false, 16, 16, (0, 0), (5, 0));
    assert_eq!(path, vec![(1, 0), (2, 0), (3, 0), (4, 0), (5, 0)]);
}

#[test]
fn diagonal_path_takes_diagonal_steps() {
    let path = find_path(|_, _| false, 16, 16, (0, 0), (3, 3));
    assert_eq!(path, vec![(1, 1), (2, 2), (3, 3)]);
}

#[test]
fn walled_off_goal_is_unreachable() {
    // the goal sits inside a closed ring of blocked cells
    let blocked = |x: i32, y: i32| (x - 8).abs() <= 1 && (y - 8).abs() <= 1 && !(x == 8 && y == 8);
    let path = find_path(blocked, 16, 16, (0, 0), (8, 8));
    assert!(path.is_empty());
}

#[test]
fn goal_outside_grid_is_unreachable() {
    let path = find_path(|_, _| false, 8, 8, (0, 0), (9, 0));
    assert!(path.is_empty());
}

#[test]
fn steps_are_adjacent_and_never_cut_corners() {
    let blocked = |x: i32, y: i32| x == 3 && y != 7;
    let path = find_path(blocked, 10, 10, (0, 0), (6, 0));
    assert_eq!(*path.last().unwrap(), (6, 0));
    let mut prev = (0, 0);
    for &(x, y) in &path {
        let (dx, dy) = (x - prev.0, y - prev.1);
        assert!(dx.abs() <= 1 && dy.abs() <= 1 && (dx, dy) != (0, 0));
        assert!(!blocked(x, y));
        if dx != 0 && dy != 0 {
            assert!(!blocked(prev.0 + dx, prev.1) && !blocked(prev.0, prev.1 + dy));
        }
        prev = (x, y);
    }
}

// ─── grid ───────────────────────────────────────────────────────────────────

#[test]
fn grid_cell_round_trip() {
    let nav = NavigationGrid::default_128();
    assert_eq!(nav.width(), 128);
    assert_eq!(nav.height(), 128);
    assert_eq!(nav.world_to_cell(v(40, 72)), (40, 72));
    let nav = NavigationGrid::new(8, 8, fx(16), v(0, 0));
    assert_eq!(nav.world_to_cell(v(40, 72)), (2, 4));
    assert_eq!(nav.world_to_cell(v(-5, 3)), (0, 0));
    assert_eq!(nav.world_to_cell(v(500, 3)), (7, 0));
    assert_eq!(nav.cell_to_world(2, 4), v(40, 72));
}

#[test]
fn grid_blocking_and_bounds() {
    let mut nav = NavigationGrid::new(4, 4, fx(16), v(0, 0));
    assert!(!nav.is_blocked(1, 1));
    nav.set_blocked(1, 1, true);
    assert!(nav.is_blocked(1, 1));
    assert!(!nav.is_blocked(1, 2));
    assert!(nav.is_blocked(-1, 0));
    assert!(nav.is_blocked(4, 0));
    assert!(!nav.in_bounds(0, 4));
    nav.set_blocked(1, 1, false);
    assert!(!nav.is_blocked(1, 1));
}

// ─── pathfinding system ─────────────────────────────────────────────────────

#[test]
fn path_created_on_move_target() {
    let mut world = World::new();
    let nav = NavigationGrid::default_128();
    let e = spawn_mover(&mut world, v(10, 0));

    pathfinding_system(&mut world, &nav);

    let path = path_of(&world, e);
    assert!(path.is_some(), "Path deve existir após system");
    let path = path.unwrap();
    assert_eq!(path.destination, v(10, 0));
    assert!(!path.waypoints.is_empty());
}

#[test]
fn path_not_recomputed_when_same_destination() {
    let mut world = World::new();
    let nav = NavigationGrid::default_128();
    let e = spawn_mover(&mut world, v(5, 0));

    pathfinding_system(&mut world, &nav);
    let len_before = path_of(&world, e).unwrap().waypoints.len();
    pathfinding_system(&mut world, &nav);
    let len_after = path_of(&world, e).unwrap().waypoints.len();
    assert_eq!(len_before, len_after);
}

#[test]
fn path_recomputed_on_new_click() {
    let mut world = World::new();
    let nav = NavigationGrid::default_128();
    let e = spawn_mover(&mut world, v(5, 0));

    pathfinding_system(&mut world, &nav);
    let mut c = world.get(e).unwrap().clone();
    c.move_target = Some(MoveTarget(v(20, 0)));
    assert!(world.set(e, c));
    pathfinding_system(&mut world, &nav);
    let path = path_of(&world, e).unwrap();
    assert_eq!(path.destination, v(20, 0));
}

#[test]
fn path_goes_around_obstacle() {
    let mut world = World::new();
    let mut nav = NavigationGrid::new(16, 16, fx(16), v(0, 0));
    for y in 0..6 {
        nav.set_blocked(3, y, true);
    }
    let mut c = Components::empty();
    c.position = Some(Position(v(8, 8)));
    c.move_target = Some(MoveTarget(v(120, 8)));
    let e = world.spawn(c);

    pathfinding_system(&mut world, &nav);

    let path = path_of(&world, e).unwrap();
    assert_eq!(path.destination, v(120, 8));
    assert_eq!(path.current, 0);
    // the last waypoint is the exact destination
    assert_eq!(*path.waypoints.last().unwrap(), v(120, 8));
    // every waypoint is the centre of a free cell or the destination
    for wp in &path.waypoints[..path.waypoints.len() - 1] {
        let (cx, cy) = nav.world_to_cell(*wp);
        assert!(!nav.is_blocked(cx, cy));
    }
}

// ─── A* optimality against an exhaustive search ─────────────────────────────

fn step_cost(a: (i32, i32), b: (i32, i32)) -> i32 {
    if a.0 != b.0 && a.1 != b.1 { 14 } else { 10 }
}

fn path_cost(start: (i32, i32), path: &[(i32, i32)]) -> i32 {
    let mut prev = start;
    let mut total = 0;
    for &c in path {
        total += step_cost(prev, c);
        prev = c;
    }
    total
}

/// Cheapest legal walk by relaxing every move until nothing changes.
fn cheapest(blocked: &dyn Fn(i32, i32) -> bool, w: i32, h: i32, s: (i32, i32), g: (i32, i32)) -> Option<i32> {
    let idx = |x: i32, y: i32| (y * w + x) as usize;
    let mut dist = vec![i32::MAX; (w * h) as usize];
    dist[idx(s.0, s.1)] = 0;
    let mut changed = true;
    while changed {
        changed = false;
        for y in 0..h {
            for x in 0..w {
                let d = dist[idx(x, y)];
                if d == i32::MAX {
                    continue;
                }
                for dy in -1..=1 {
                    for dx in -1..=1 {
                        let (nx, ny) = (x + dx, y + dy);
                        if (dx, dy) == (0, 0) || nx < 0 || ny < 0 || nx >= w || ny >= h {
                            continue;
                        }
                        if blocked(nx, ny) || (dx != 0 && dy != 0 && (blocked(x, ny) || blocked(nx, y))) {
                            continue;
                        }
                        let nd = d + step_cost((x, y), (nx, ny));
                        if nd < dist[idx(nx, ny)] {
                            dist[idx(nx, ny)] = nd;
                            changed = true;
                        }
                    }
                }
            }
        }
    }
    let d = dist[idx(g.0, g.1)];
    if d == i32::MAX { None } else { Some(d) }
}

#[test]
fn path_cost_is_minimal() {
    let mazes: [(&dyn Fn(i32, i32) -> bool, (i32, i32), (i32, i32)); 4] = [
        (&|x: i32, y: i32| x == 2 && y < 4, (0, 2), (4, 2)),
        (&|x: i32, y: i32| (x == 3 && y != 7) || (x == 6 && y != 0), (0, 0), (9, 9)),
        (&|x: i32, y: i32| (x + y) % 5 == 0 && x != y, (1, 1), (8, 6)),
        (&|_: i32, _: i32| false, (9, 0), (0, 7)),
    ];
    for (blocked, s, g) in mazes {
        let path = find_path(|x, y| blocked(x, y), 10, 10, s, g);
        let best = cheapest(blocked, 10, 10, s, g);
        match best {
            Some(c) => {
                assert_eq!(*path.last().unwrap(), g);
                assert_eq!(path_cost(s, &path), c);
            }
            None => assert!(path.is_empty()),
        }
    }
}

#[test]
fn path_never_returns_to_start() {
    let blocked = |x: i32, y: i32| x == 4 && y > 0;
    let path = find_path(blocked, 10, 10, (2, 5), (7, 5));
    assert!(!path.is_empty());
    assert!(path.iter().all(|&c| c != (2, 5)));
}

#[test]
fn cell_centres_fall_back_into_their_cells() {
    let nav = NavigationGrid::new(8, 6, Fixed::from_num(3), Vec2Fixed::new(Fixed::from_num(-10), Fixed::from_num(7)));
    for x in 0..8 {
        for y in 0..6 {
            assert_eq!(nav.world_to_cell(nav.cell_to_world(x, y)), (x, y));
        }
    }
    let nav = NavigationGrid::new(4, 4, Fixed::from_bits(3), Vec2Fixed::zero());
    for x in 0..4 {
        assert_eq!(nav.world_to_cell(nav.cell_to_world(x, 3 - x)), (x, 3 - x));
    }
}
