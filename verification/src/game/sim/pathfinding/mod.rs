//! Deterministic A* pathfinding.
//!
//! `pathfinding_system` turns a `MoveTarget` into a `Path` of waypoints. It
//! recomputes only when the destination changes (a new move order) or when
//! the current waypoint is no longer in sight.
pub mod grid;
pub mod astar;

use vstd::prelude::*;

use crate::game::base::ecs::{Components, Slot, World, slots_wf};
use crate::game::base::types::Vec2Fixed;
use crate::game::sim::components::Path;
use crate::game::sim::pathfinding::astar::{
    find_path, is_walk, may_be_free, move_ok, short_walk, step_ok, surely_free, walk_cost,
};
use crate::game::sim::pathfinding::grid::NavigationGrid;

verus! {

/// One step of Bresenham's line walk on state `(x, y, err)`.
pub open spec fn bres_step(st: (int, int, int), dx: int, dy: int, sx: int, sy: int) -> (int, int, int) {
    let e2 = 2 * st.2;
    let (x1, err1) = if e2 > -dy {
        (st.0 + sx, st.2 - dy)
    } else {
        (st.0, st.2)
    };
    let (y1, err2) = if e2 < dx {
        (st.1 + sy, err1 + dx)
    } else {
        (st.1, err1)
    };
    (x1, y1, err2)
}

/// State of Bresenham's walk from cell `a` toward cell `b` after `k` steps.
pub open spec fn bres_pt(a: (int, int), b: (int, int), k: nat) -> (int, int, int)
    decreases k,
{
    let dx = if b.0 >= a.0 { b.0 - a.0 } else { a.0 - b.0 };
    let dy = if b.1 >= a.1 { b.1 - a.1 } else { a.1 - b.1 };
    let sx = if b.0 > a.0 { 1int } else { -1int };
    let sy = if b.1 > a.1 { 1int } else { -1int };
    if k == 0 {
        (a.0, a.1, dx - dy)
    } else {
        bres_step(bres_pt(a, b, (k - 1) as nat), dx, dy, sx, sy)
    }
}

/// The walk has not reached `b` in its first `k` steps.
pub open spec fn not_yet(a: (int, int), b: (int, int), k: nat) -> bool {
    forall|j: nat| j < k ==> !(#[trigger] bres_pt(a, b, j).0 == b.0 && bres_pt(a, b, j).1 == b.1)
}

/// No cell of the Bresenham line from the cell of `from` to the cell of
/// `to`, both included, is blocked.
pub open spec fn sight_clear(nav: &NavigationGrid, from: Vec2Fixed, to: Vec2Fixed) -> bool {
    let a = nav.cell_of(from);
    let b = nav.cell_of(to);
    forall|k: nat|
        not_yet(a, b, k) ==> !nav.blocked_at(#[trigger] bres_pt(a, b, k).0, bres_pt(a, b, k).1)
}

/// Line of sight by Bresenham: true when no cell on the line is blocked.
/// The grid must have a cell and a non-zero cell size, as converting world
/// positions to cells requires.
fn line_of_sight(nav: &NavigationGrid, from: Vec2Fixed, to: Vec2Fixed) -> (r: bool)
    requires
        nav.cols() >= 1,
        nav.rows() >= 1,
        nav.cell_len().bits != 0,
    ensures
        r == sight_clear(nav, from, to),
{
    let (x0, y0) = nav.world_to_cell(from);
    let (x1, y1) = nav.world_to_cell(to);
    let ghost a = (x0 as int, y0 as int);
    let ghost b = (x1 as int, y1 as int);
    let mut x = x0;
    let mut y = y0;
    let dx: i64 = if x1 >= x { x1 as i64 - x as i64 } else { x as i64 - x1 as i64 };
    let dy: i64 = if y1 >= y { y1 as i64 - y as i64 } else { y as i64 - y1 as i64 };
    let sx: i32 = if x1 > x { 1 } else { -1 };
    let sy: i32 = if y1 > y { 1 } else { -1 };
    let mut err: i64 = dx - dy;
    let ghost mut k: nat = 0;
    let cols = nav.width();
    let rows = nav.height();
    let ghost wd = cols as int;
    let ghost ht = rows as int;
    loop
        invariant
            nav.cols() >= 1,
            nav.rows() >= 1,
            wd == nav.cols(),
            ht == nav.rows(),
            wd == cols,
            ht == rows,
            a == nav.cell_of(from),
            b == nav.cell_of(to),
            nav.inside(b.0, b.1),
            b == (x1 as int, y1 as int),
            dx == (if b.0 >= a.0 { b.0 - a.0 } else { a.0 - b.0 }),
            dy == (if b.1 >= a.1 { b.1 - a.1 } else { a.1 - b.1 }),
            sx == (if b.0 > a.0 { 1int } else { -1int }),
            sy == (if b.1 > a.1 { 1int } else { -1int }),
            0 <= dx <= i32::MAX,
            0 <= dy <= i32::MAX,
            bres_pt(a, b, k) == (x as int, y as int, err as int),
            -3 * dy <= 2 * err <= 3 * dx,
            -1 <= x <= wd,
            -1 <= y <= ht,
            dx == 0 && dy == 0 ==> x == x1 && y == y1,
            not_yet(a, b, k),
            forall|j: nat| j < k ==> !nav.blocked_at(#[trigger] bres_pt(a, b, j).0, bres_pt(a, b, j).1),
        ensures
            sight_clear(nav, from, to),
        decreases (if sx > 0 { wd - x } else { x + 1 }) + (if sy > 0 { ht - y } else { y + 1 }),
    {
        if nav.is_blocked(x, y) {
            assert(!nav.blocked_at(bres_pt(a, b, k).0, bres_pt(a, b, k).1) ==> false);
            return false;
        }
        if x == x1 && y == y1 {
            assert forall|kk: nat| not_yet(a, b, kk) implies !nav.blocked_at(
                #[trigger] bres_pt(a, b, kk).0,
                bres_pt(a, b, kk).1,
            ) by {
                if kk > k {
                    assert(bres_pt(a, b, k).0 == b.0);
                }
            }
            break;
        }
        let e2 = 2 * err;
        if e2 > -dy {
            err = err - dy;
            x = x + sx;
        }
        if e2 < dx {
            err = err + dx;
            y = y + sy;
        }
        proof {
            k = k + 1;
        }
    }
    true
}


/// Index of the farthest waypoint in `wps[i..=j]` in sight of `from`; `i`
/// when none beyond it is.
pub open spec fn farthest_visible(
    nav: &NavigationGrid,
    from: Vec2Fixed,
    wps: Seq<Vec2Fixed>,
    i: int,
    j: int,
) -> int
    decreases j - i,
{
    if j > i && !sight_clear(nav, from, wps[j]) {
        farthest_visible(nav, from, wps, i, j - 1)
    } else {
        j
    }
}

pub proof fn lemma_farthest_range(
    nav: &NavigationGrid,
    from: Vec2Fixed,
    wps: Seq<Vec2Fixed>,
    i: int,
    j: int,
)
    requires
        i <= j,
    ensures
        i <= farthest_visible(nav, from, wps, i, j) <= j,
    decreases j - i,
{
    if j > i && !sight_clear(nav, from, wps[j]) {
        lemma_farthest_range(nav, from, wps, i, j - 1);
    }
}

/// Greedy string pulling: from `from`, jump to the farthest waypoint in
/// sight (or the next one), keep it, and go on from there.
pub open spec fn pulled(nav: &NavigationGrid, from: Vec2Fixed, wps: Seq<Vec2Fixed>, i: int) -> Seq<
    Vec2Fixed,
>
    decreases wps.len() - i,
{
    if i < 0 || i >= wps.len() {
        Seq::empty()
    } else {
        let j = farthest_visible(nav, from, wps, i, wps.len() - 1);
        proof {
            lemma_farthest_range(nav, from, wps, i, wps.len() - 1);
        }
        seq![wps[j]] + pulled(nav, wps[j], wps, j + 1)
    }
}

/// Keeps only the waypoints where the line of sight changes direction:
/// from the current point, go straight to the farthest waypoint in sight.
fn pull_string(nav: &NavigationGrid, start: Vec2Fixed, wps: Vec<Vec2Fixed>) -> (r: Vec<Vec2Fixed>)
    requires
        nav.cols() >= 1,
        nav.rows() >= 1,
        nav.cell_len().bits != 0,
    ensures
        r@ == pulled(nav, start, wps@, 0),
{
    if wps.len() <= 1 {
        proof {
            if wps@.len() == 1 {
                assert(farthest_visible(nav, start, wps@, 0, 0) == 0);
                assert(pulled(nav, wps@[0], wps@, 1) =~= Seq::<Vec2Fixed>::empty());
                assert(pulled(nav, start, wps@, 0) =~= wps@);
            } else {
                assert(pulled(nav, start, wps@, 0) =~= wps@);
            }
        }
        return wps;
    }
    let mut result: Vec<Vec2Fixed> = Vec::new();
    let mut from = start;
    let mut i: usize = 0;
    while i < wps.len()
        invariant
            nav.cols() >= 1,
            nav.rows() >= 1,
            nav.cell_len().bits != 0,
            i <= wps@.len(),
            result@ + pulled(nav, from, wps@, i as int) == pulled(nav, start, wps@, 0),
        decreases wps@.len() - i,
    {
        let mut j = wps.len() - 1;
        while j > i && !line_of_sight(nav, from, wps[j])
            invariant
                nav.cols() >= 1,
                nav.rows() >= 1,
                nav.cell_len().bits != 0,
                i <= j < wps@.len(),
                farthest_visible(nav, from, wps@, i as int, j as int) == farthest_visible(
                    nav,
                    from,
                    wps@,
                    i as int,
                    wps@.len() - 1,
                ),
            decreases j,
        {
            j = j - 1;
        }
        proof {
            lemma_farthest_range(nav, from, wps@, i as int, wps@.len() - 1);
            let rest = pulled(nav, wps@[j as int], wps@, j + 1);
            assert(pulled(nav, from, wps@, i as int) == seq![wps@[j as int]] + rest);
            assert(result@.push(wps@[j as int]) + rest =~= result@ + (seq![wps@[j as int]] + rest));
        }
        result.push(wps[j]);
        from = wps[j];
        i = j + 1;
    }
    proof {
        assert(pulled(nav, from, wps@, i as int) =~= Seq::<Vec2Fixed>::empty());
        assert(result@ + Seq::<Vec2Fixed>::empty() =~= result@);
    }
    result
}

/// Cells of `nav` that are not blocked.
pub open spec fn open_cells(nav: &NavigationGrid) -> spec_fn((i32, i32)) -> bool {
    |c: (i32, i32)| !nav.blocked_at(c.0 as int, c.1 as int)
}

/// What A* may answer on `nav` from cell `s` to cell `g`: nothing when they
/// coincide; otherwise a legal walk through open cells ending at `g` that
/// costs no more than any short legal walk, or nothing only when no short
/// legal walk reaches `g`.
pub open spec fn astar_outcome(
    nav: &NavigationGrid,
    s: (i32, i32),
    g: (i32, i32),
    cells: Seq<(i32, i32)>,
) -> bool {
    &&& s == g ==> cells.len() == 0
    &&& cells.len() > 0 ==> cells.last() == g && is_walk(
        open_cells(nav),
        nav.cols(),
        nav.rows(),
        seq![s] + cells,
    )
    &&& cells.len() > 0 ==> forall|w: Seq<(i32, i32)>|
        #[trigger] short_walk(open_cells(nav), nav.cols(), nav.rows(), s, g, w) ==> walk_cost(
            seq![s] + cells,
        ) <= walk_cost(w)
    &&& cells.len() == 0 && s != g ==> forall|w: Seq<(i32, i32)>|
        !#[trigger] short_walk(open_cells(nav), nav.cols(), nav.rows(), s, g, w)
}

/// Waypoints made from A* cells: cell centres with the exact goal in place
/// of the last one, then string-pulled.
pub open spec fn route(
    nav: &NavigationGrid,
    start: Vec2Fixed,
    goal: Vec2Fixed,
    cells: Seq<(i32, i32)>,
) -> Seq<Vec2Fixed> {
    if cells.len() == 0 {
        Seq::empty()
    } else {
        let raw = cells.map_values(|c: (i32, i32)| nav.centre_of(c.0 as int, c.1 as int));
        pulled(nav, start, raw.update(raw.len() - 1, goal), 0)
    }
}

pub open spec fn cell32(c: (int, int)) -> (i32, i32) {
    (c.0 as i32, c.1 as i32)
}

/// The waypoints planned from `start` to `goal`: none when the goal's cell
/// is blocked, the goal itself when it is in sight, and otherwise the
/// string-pulled A* route (none when A* finds no path).
pub open spec fn planned(
    nav: &NavigationGrid,
    start: Vec2Fixed,
    goal: Vec2Fixed,
    wps: Seq<Vec2Fixed>,
) -> bool {
    let gc = nav.cell_of(goal);
    if nav.blocked_at(gc.0, gc.1) {
        wps.len() == 0
    } else if sight_clear(nav, start, goal) {
        wps == seq![goal]
    } else {
        exists|cells: Seq<(i32, i32)>|
            astar_outcome(nav, cell32(nav.cell_of(start)), cell32(gc), cells) && wps == route(
                nav,
                start,
                goal,
                cells,
            )
    }
}

/// A walk stays legal when more cells count as free.
proof fn lemma_walk_mono(
    f1: spec_fn((i32, i32)) -> bool,
    f2: spec_fn((i32, i32)) -> bool,
    w: int,
    h: int,
    cells: Seq<(i32, i32)>,
)
    requires
        forall|c: (i32, i32)| #[trigger] f1(c) ==> f2(c),
        is_walk(f1, w, h, cells),
    ensures
        is_walk(f2, w, h, cells),
{
    assert forall|k: int| 0 <= k < cells.len() - 1 implies #[trigger] step_ok(f2, w, h, cells, k) by {
        assert(step_ok(f1, w, h, cells, k));
        let a = cells[k];
        let b = cells[k + 1];
        assert(f1(b));
        if a.0 != b.0 && a.1 != b.1 {
            assert(f1((a.0, b.1)));
            assert(f1((b.0, a.1)));
        }
    }
}

/// Plans a path from `start` to `goal` on `nav`.
fn compute_path(nav: &NavigationGrid, start: Vec2Fixed, goal: Vec2Fixed) -> (r: Path)
    requires
        nav.cols() >= 1,
        nav.rows() >= 1,
        nav.cell_len().bits != 0,
    ensures
        r.destination == goal,
        r.current == 0,
        planned(nav, start, goal, r.waypoints@),
{
    let gc = nav.world_to_cell(goal);
    // A blocked destination: stay put.
    if nav.is_blocked(gc.0, gc.1) {
        return Path { waypoints: Vec::new(), current: 0, destination: goal };
    }
    // A clear line of sight: go straight, without visiting cell centres.
    if line_of_sight(nav, start, goal) {
        let mut wps: Vec<Vec2Fixed> = Vec::new();
        wps.push(goal);
        assert(wps@ =~= seq![goal]);
        return Path { waypoints: wps, current: 0, destination: goal };
    }
    let sc = nav.world_to_cell(start);
    let width = nav.width();
    let height = nav.height();
    let bl = |x: i32, y: i32| -> (b: bool)
        ensures
            b == nav.blocked_at(x as int, y as int),
        { nav.is_blocked(x, y) };
    let cells = find_path(bl, width, height, sc, gc);
    let ghost free = open_cells(nav);
    proof {
        assert forall|c: (i32, i32)| #[trigger] may_be_free(bl)(c) implies free(c) by {}
        assert forall|c: (i32, i32)| #[trigger] free(c) implies surely_free(bl)(c) by {}
        if cells@.len() > 0 {
            lemma_walk_mono(
                may_be_free(bl),
                free,
                width as int,
                height as int,
                seq![sc] + cells@,
            );
        }
        if cells@.len() > 0 {
            assert forall|w: Seq<(i32, i32)>|
                #[trigger] short_walk(free, width as int, height as int, sc, gc, w) implies walk_cost(
                seq![sc] + cells@,
            ) <= walk_cost(w) by {
                lemma_walk_mono(free, surely_free(bl), width as int, height as int, w);
                assert(short_walk(surely_free(bl), width as int, height as int, sc, gc, w));
            }
        }
        if cells@.len() == 0 && sc != gc {
            assert forall|w: Seq<(i32, i32)>|
                !#[trigger] short_walk(free, width as int, height as int, sc, gc, w) by {
                if short_walk(free, width as int, height as int, sc, gc, w) {
                    lemma_walk_mono(free, surely_free(bl), width as int, height as int, w);
                    assert(short_walk(surely_free(bl), width as int, height as int, sc, gc, w));
                }
            }
        }
        assert(sc == cell32(nav.cell_of(start)));
        assert(gc == cell32(nav.cell_of(goal)));
        assert(astar_outcome(nav, sc, gc, cells@));
    }
    if cells.len() == 0 {
        proof {
            assert(route(nav, start, goal, cells@) =~= Seq::<Vec2Fixed>::empty());
        }
        return Path { waypoints: Vec::new(), current: 0, destination: goal };
    }
    // Cells → world positions; the last one becomes the exact goal.
    let mut raw: Vec<Vec2Fixed> = Vec::new();
    let mut i: usize = 0;
    let ghost centres = cells@.map_values(|c: (i32, i32)| nav.centre_of(c.0 as int, c.1 as int));
    while i < cells.len()
        invariant
            i <= cells@.len(),
            centres == cells@.map_values(|c: (i32, i32)| nav.centre_of(c.0 as int, c.1 as int)),
            raw@ =~= centres.subrange(0, i as int),
        decreases cells@.len() - i,
    {
        let (x, y) = cells[i];
        raw.push(nav.cell_to_world(x, y));
        i = i + 1;
    }
    assert(raw@ =~= centres);
    let last = raw.len() - 1;
    raw.set(last, goal);
    let ghost raw_final = raw@;
    assert(raw_final =~= centres.update(centres.len() - 1, goal));
    let waypoints = pull_string(nav, start, raw);
    proof {
        assert(waypoints@ == pulled(nav, start, centres.update(centres.len() - 1, goal), 0));
        assert(waypoints@ == route(nav, start, goal, cells@));
    }
    Path { waypoints, current: 0, destination: goal }
}


/// An entity must have its path (re)computed when it has a position and a
/// move target and either no path, a path to another destination (a new
/// click), or a current waypoint that went out of sight (a wall slide pushed
/// it off the route).
pub open spec fn path_stale(nav: &NavigationGrid, c: Components) -> bool {
    match (c.position, c.move_target) {
        (Some(p), Some(t)) => match c.path {
            None => true,
            Some(path) => path.destination != t.0 || (path.current < path.waypoints@.len()
                && !sight_clear(nav, p.0, path.waypoints@[path.current as int])),
        },
        _ => false,
    }
}

/// `after` is `before`, with a freshly planned path where the old one was
/// stale.
pub open spec fn replanned(nav: &NavigationGrid, before: Components, after: Components) -> bool {
    if path_stale(nav, before) {
        &&& after.path is Some
        &&& after == (Components { path: after.path, ..before })
        &&& after.path->0.destination == (before.move_target->0).0
        &&& after.path->0.current == 0
        &&& planned(
            nav,
            (before.position->0).0,
            (before.move_target->0).0,
            after.path->0.waypoints@,
        )
    } else {
        after == before
    }
}

fn replan_entity(nav: &NavigationGrid, c: &mut Components)
    requires
        nav.cols() >= 1,
        nav.rows() >= 1,
        nav.cell_len().bits != 0,
    ensures
        replanned(nav, *old(c), *final(c)),
{
    let (pos, target) = match (c.position, c.move_target) {
        (Some(p), Some(t)) => (p.0, t.0),
        _ => {
            return ;
        },
    };
    let stale = match &c.path {
        None => true,
        Some(p) => {
            if p.destination != target {
                true
            } else {
                match p.current_wp() {
                    Some(wp) => !line_of_sight(nav, pos, wp),
                    None => false,
                }
            }
        },
    };
    if stale {
        c.path = Some(compute_path(nav, pos, target));
    }
}

/// Computes a `Path` for every entity whose move target is new or changed,
/// or whose current waypoint went out of sight.
pub fn pathfinding_system(world: &mut World, nav: &NavigationGrid)
    requires
        old(world).wf(),
        nav.cols() >= 1,
        nav.rows() >= 1,
        nav.cell_len().bits != 0,
    ensures
        final(world).wf(),
        final(world).next() == old(world).next(),
        final(world).view().len() == old(world).view().len(),
        forall|i: int|
            0 <= i < old(world).view().len() ==> (#[trigger] final(world).view()[i]).entity == old(
                world,
            ).view()[i].entity && replanned(
                nav,
                old(world).view()[i].comps,
                final(world).view()[i].comps,
            ),
{
    let ghost old_slots = world.slots@;
    let mut i: usize = 0;
    while i < world.slots.len()
        invariant
            nav.cols() >= 1,
            nav.rows() >= 1,
            nav.cell_len().bits != 0,
            i <= world.slots@.len(),
            world.slots@.len() == old_slots.len(),
            world.next_id == old(world).next_id,
            slots_wf(old_slots, world.next_id),
            forall|k: int|
                0 <= k < i ==> (#[trigger] world.slots@[k]).entity == old_slots[k].entity
                    && replanned(nav, old_slots[k].comps, world.slots@[k].comps),
            forall|k: int| i <= k < world.slots@.len() ==> #[trigger] world.slots@[k] == old_slots[k],
        decreases world.slots@.len() - i,
    {
        replan_entity(nav, &mut world.slots[i].comps);
        i = i + 1;
    }
    proof {
        assert(forall|k: int|
            0 <= k < world.slots@.len() ==> (#[trigger] world.slots@[k]).entity
                == old_slots[k].entity);
    }
}

} // verus!
