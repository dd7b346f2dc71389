//! Deterministic A* on an integer grid with 8 directions.
//!
//! The result runs from the start (excluded) to the goal (included). Ties in
//! the open list are broken by cell coordinates, so every peer computes the
//! same path.
use vstd::prelude::*;

use crate::game::sim::pathfinding::grid::{lemma_cell_index, lemma_cell_index_injective};

verus! {

/// `b` is one of the 8 neighbours of `a`.
pub open spec fn adjacent(a: (i32, i32), b: (i32, i32)) -> bool {
    &&& -1 <= b.0 - a.0 <= 1
    &&& -1 <= b.1 - a.1 <= 1
    &&& a != b
}

/// Cost of a move: 10 straight, 14 diagonal.
pub open spec fn step_cost(a: (i32, i32), b: (i32, i32)) -> int {
    if a.0 != b.0 && a.1 != b.1 {
        14
    } else {
        10
    }
}

/// A legal move from `a` to `b` in a `width`×`height` grid whose enterable
/// cells are those `free` accepts: `b` lies inside, is a neighbour of `a` and
/// is free, and a diagonal move does not cut the corner of a blocked cell.
pub open spec fn move_ok(
    free: spec_fn((i32, i32)) -> bool,
    width: int,
    height: int,
    a: (i32, i32),
    b: (i32, i32),
) -> bool {
    &&& 0 <= b.0 < width
    &&& 0 <= b.1 < height
    &&& adjacent(a, b)
    &&& free(b)
    &&& (a.0 != b.0 && a.1 != b.1) ==> (free((a.0, b.1)) && free((b.0, a.1)))
}

/// The move from `cells[k]` to `cells[k + 1]` is legal.
pub open spec fn step_ok(
    free: spec_fn((i32, i32)) -> bool,
    width: int,
    height: int,
    cells: Seq<(i32, i32)>,
    k: int,
) -> bool {
    move_ok(free, width, height, cells[k], cells[k + 1])
}

/// Every move along `cells` is legal.
pub open spec fn is_walk(
    free: spec_fn((i32, i32)) -> bool,
    width: int,
    height: int,
    cells: Seq<(i32, i32)>,
) -> bool {
    forall|k: int| 0 <= k < cells.len() - 1 ==> #[trigger] step_ok(free, width, height, cells, k)
}

/// Cells for which the obstacle test may answer "not blocked".
pub open spec fn may_be_free<F: Fn(i32, i32) -> bool>(blocked: F) -> spec_fn((i32, i32)) -> bool {
    |c: (i32, i32)| call_ensures(blocked, (c.0, c.1), false)
}

/// Cells for which the obstacle test can only answer "not blocked".
pub open spec fn surely_free<F: Fn(i32, i32) -> bool>(blocked: F) -> spec_fn((i32, i32)) -> bool {
    |c: (i32, i32)| forall|r: bool| #[trigger] call_ensures(blocked, (c.0, c.1), r) ==> !r
}

/// A walk from `start` to `goal` of at most `i32::MAX / 14` cells.
pub open spec fn short_walk(
    free: spec_fn((i32, i32)) -> bool,
    width: int,
    height: int,
    start: (i32, i32),
    goal: (i32, i32),
    cells: Seq<(i32, i32)>,
) -> bool {
    &&& cells.len() >= 1
    &&& cells[0] == start
    &&& cells.last() == goal
    &&& 14 * cells.len() <= i32::MAX
    &&& is_walk(free, width, height, cells)
}

/// Cost of a walk: 10 per straight move, 14 per diagonal one.
pub open spec fn walk_cost(cells: Seq<(i32, i32)>) -> int
    decreases cells.len(),
{
    if cells.len() <= 1 {
        0
    } else {
        walk_cost(cells.drop_last()) + step_cost(cells[cells.len() - 2], cells.last())
    }
}

/// Octile distance × 10, in integers.
pub open spec fn octile(a: (i32, i32), b: (i32, i32)) -> int {
    let dx = if a.0 >= b.0 { a.0 - b.0 } else { b.0 - a.0 };
    let dy = if a.1 >= b.1 { a.1 - b.1 } else { b.1 - a.1 };
    10 * (dx + dy) - 6 * (if dx <= dy { dx } else { dy })
}

/// Offsets of the 8 neighbours, in the order they are explored.
pub open spec fn dir_x(k: int) -> int {
    if k == 0 || k == 3 || k == 5 {
        -1
    } else if k == 1 || k == 6 {
        0
    } else {
        1
    }
}

pub open spec fn dir_y(k: int) -> int {
    if k <= 2 {
        -1
    } else if k <= 4 {
        0
    } else {
        1
    }
}

spec fn inside(width: int, height: int, c: (i32, i32)) -> bool {
    0 <= c.0 < width && 0 <= c.1 < height
}

spec fn at<T>(s: Seq<T>, width: int, c: (i32, i32)) -> T {
    s[c.1 * width + c.0]
}

spec fn sat(v: int) -> int {
    if v > i32::MAX {
        i32::MAX as int
    } else {
        v
    }
}

spec fn total(s: Seq<i32>) -> int
    decreases s.len(),
{
    if s.len() == 0 {
        0
    } else {
        total(s.drop_last()) + s.last()
    }
}

proof fn lemma_total_update(s: Seq<i32>, i: int, v: i32)
    requires
        0 <= i < s.len(),
    ensures
        total(s.update(i, v)) == total(s) - s[i] + v,
    decreases s.len(),
{
    let t = s.update(i, v);
    if i == s.len() - 1 {
        assert(t.drop_last() =~= s.drop_last());
    } else {
        lemma_total_update(s.drop_last(), i, v);
        assert(t.drop_last() =~= s.drop_last().update(i, v));
    }
}

proof fn lemma_total_nonneg(s: Seq<i32>)
    requires
        forall|i: int| 0 <= i < s.len() ==> s[i] >= 0,
    ensures
        total(s) >= 0,
    decreases s.len(),
{
    if s.len() > 0 {
        lemma_total_nonneg(s.drop_last());
    }
}

/// Writing one cell of a grid-shaped sequence changes only that cell.
proof fn lemma_at_update<T>(s: Seq<T>, width: int, height: int, n: (i32, i32), v: T)
    requires
        inside(width, height, n),
        s.len() == width * height,
    ensures
        forall|c: (i32, i32)|
            inside(width, height, c) ==> #[trigger] at(s.update(n.1 * width + n.0, v), width, c)
                == if c == n {
                v
            } else {
                at(s, width, c)
            },
{
    assert forall|c: (i32, i32)| inside(width, height, c) implies #[trigger] at(
        s.update(n.1 * width + n.0, v),
        width,
        c,
    ) == if c == n {
        v
    } else {
        at(s, width, c)
    } by {
        lemma_cell_index(width, height, c.0 as int, c.1 as int);
        lemma_cell_index(width, height, n.0 as int, n.1 as int);
        if c.1 * width + c.0 == n.1 * width + n.0 {
            lemma_cell_index_injective(
                width,
                height,
                c.0 as int,
                c.1 as int,
                n.0 as int,
                n.1 as int,
            );
        }
    }
}

/// Every neighbour is reached by one of the 8 offsets.
proof fn lemma_dir_of(c: (i32, i32), n: (i32, i32)) -> (k: int)
    requires
        adjacent(c, n),
    ensures
        0 <= k < 8,
        n.0 == c.0 + dir_x(k),
        n.1 == c.1 + dir_y(k),
{
    let dx = n.0 - c.0;
    let dy = n.1 - c.1;
    if dy == -1 {
        if dx == -1 { 0 } else if dx == 0 { 1 } else { 2 }
    } else if dy == 0 {
        if dx == -1 { 3 } else { 4 }
    } else {
        if dx == -1 { 5 } else if dx == 0 { 6 } else { 7 }
    }
}

proof fn lemma_not_surely_free<F: Fn(i32, i32) -> bool>(blocked: F, x: i32, y: i32)
    requires
        call_ensures(blocked, (x, y), true),
    ensures
        !surely_free(blocked)((x, y)),
{
    let c = (x, y);
    assert(call_ensures(blocked, (c.0, c.1), true));
}

/// Row-major index of an in-bounds cell.
fn cell_index(width: i32, height: i32, x: i32, y: i32) -> (r: usize)
    requires
        0 <= x < width,
        0 <= y < height,
        width * height <= i32::MAX,
    ensures
        r == y * width + x,
        r < width * height,
{
    proof {
        lemma_cell_index(width as int, height as int, x as int, y as int);
    }
    (y * width + x) as usize
}

/// Heuristic: octile distance × 10, with no floating point. Computed in 64
/// bits, so it never overflows.
fn heuristic(a: (i32, i32), b: (i32, i32)) -> (r: i64)
    ensures
        r == octile(a, b),
{
    let dx: i64 = if a.0 >= b.0 { a.0 as i64 - b.0 as i64 } else { b.0 as i64 - a.0 as i64 };
    let dy: i64 = if a.1 >= b.1 { a.1 as i64 - b.1 as i64 } else { b.1 as i64 - a.1 as i64 };
    let m: i64 = if dx <= dy { dx } else { dy };
    10 * (dx + dy) - 6 * m
}

/// The 8 neighbours with their cost: 10 straight, 14 diagonal.
fn neighbors(x: i32, y: i32) -> (r: [(i32, i32, i32); 8])
    requires
        i32::MIN < x < i32::MAX,
        i32::MIN < y < i32::MAX,
    ensures
        forall|k: int|
            0 <= k < 8 ==> (#[trigger] r@[k]).0 == x + dir_x(k) && r@[k].1 == y + dir_y(k)
                && r@[k].2 == (if dir_x(k) != 0 && dir_y(k) != 0 {
                14int
            } else {
                10int
            }),
{
    [
        (x - 1, y - 1, 14),
        (x, y - 1, 10),
        (x + 1, y - 1, 14),
        (x - 1, y, 10),
        (x + 1, y, 10),
        (x - 1, y + 1, 14),
        (x, y + 1, 10),
        (x + 1, y + 1, 14),
    ]
}

/// `a` comes no later than `b` in the order of a min-heap of `(f, x, y)`:
/// by cost estimate, then by `x`, then by `y`.
pub open spec fn entry_le(a: (i64, i32, i32), b: (i64, i32, i32)) -> bool {
    a.0 < b.0 || (a.0 == b.0 && (a.1 < b.1 || (a.1 == b.1 && a.2 <= b.2)))
}

/// Index of the smallest `(f, x, y)` entry: the one a min-heap would pop,
/// so equal estimates go to the smaller `x`, then the smaller `y`.
fn min_entry(open: &Vec<(i64, i32, i32)>) -> (m: usize)
    requires
        open@.len() > 0,
    ensures
        m < open@.len(),
        forall|j: int| 0 <= j < open@.len() ==> entry_le(open@[m as int], #[trigger] open@[j]),
        forall|j: int| 0 <= j < open@.len() ==> open@[m as int].0 <= #[trigger] open@[j].0,
{
    let mut m: usize = 0;
    let mut i: usize = 1;
    while i < open.len()
        invariant
            m < open@.len(),
            1 <= i <= open@.len(),
            forall|j: int| 0 <= j < i ==> entry_le(open@[m as int], #[trigger] open@[j]),
        decreases open@.len() - i,
    {
        let a = open[i];
        let b = open[m];
        if a.0 < b.0 || (a.0 == b.0 && (a.1 < b.1 || (a.1 == b.1 && a.2 < b.2))) {
            m = i;
        }
        i = i + 1;
    }
    assert forall|j: int| 0 <= j < open@.len() implies open@[m as int].0 <= #[trigger] open@[j].0 by {
        assert(entry_le(open@[m as int], open@[j]));
    }
    m
}


/// `p` is a valid predecessor of `c` on a path from `start`.
spec fn parent_ok(
    free: spec_fn((i32, i32)) -> bool,
    width: int,
    height: int,
    start: (i32, i32),
    g: Seq<i32>,
    c: (i32, i32),
    p: (i32, i32),
) -> bool {
    &&& c != start
    &&& inside(width, height, p)
    &&& move_ok(free, width, height, p, c)
    &&& at(g, width, p) + step_cost(p, c) <= at(g, width, c)
    &&& at(g, width, c) < i32::MAX
}

spec fn in_open(open: Seq<(i64, i32, i32)>, c: (i32, i32)) -> bool {
    exists|j: int| 0 <= j < open.len() && (#[trigger] open[j]).1 == c.0 && open[j].2 == c.1
}

/// Every legal move out of `c` has been relaxed.
spec fn expanded<F: Fn(i32, i32) -> bool>(
    blocked: F,
    width: int,
    height: int,
    g: Seq<i32>,
    c: (i32, i32),
) -> bool {
    forall|n: (i32, i32)|
        #[trigger] move_ok(surely_free(blocked), width, height, c, n) ==> at(g, width, n) <= sat(
            at(g, width, c) + step_cost(c, n),
        )
}

/// The open list holds an entry for `c` with priority `f`.
spec fn in_open_at(open: Seq<(i64, i32, i32)>, c: (i32, i32), f: int) -> bool {
    exists|j: int|
        0 <= j < open.len() && (#[trigger] open[j]).1 == c.0 && open[j].2 == c.1 && open[j].0 == f
}

/// A reached cell is waiting in the open list with its current priority,
/// or has been expanded.
spec fn settled<F: Fn(i32, i32) -> bool>(
    blocked: F,
    width: int,
    height: int,
    goal: (i32, i32),
    g: Seq<i32>,
    open: Seq<(i64, i32, i32)>,
    c: (i32, i32),
) -> bool {
    at(g, width, c) < i32::MAX ==> in_open_at(open, c, at(g, width, c) + octile(c, goal)) || expanded(
        blocked,
        width,
        height,
        g,
        c,
    )
}

spec fn nb(c: (i32, i32), k: int) -> (i32, i32) {
    ((c.0 + dir_x(k)) as i32, (c.1 + dir_y(k)) as i32)
}

/// The first `k` directions out of `c` have been relaxed.
spec fn relaxed<F: Fn(i32, i32) -> bool>(
    blocked: F,
    width: int,
    height: int,
    g: Seq<i32>,
    c: (i32, i32),
    g_cur: int,
    k: int,
) -> bool {
    move_ok(surely_free(blocked), width, height, c, nb(c, k)) ==> at(g, width, nb(c, k)) <= sat(
        g_cur + step_cost(c, nb(c, k)),
    )
}

spec fn search_inv<F: Fn(i32, i32) -> bool>(
    blocked: F,
    width: int,
    height: int,
    start: (i32, i32),
    goal: (i32, i32),
    g: Seq<i32>,
    came: Seq<Option<(i32, i32)>>,
    open: Seq<(i64, i32, i32)>,
) -> bool {
    &&& g.len() == width * height
    &&& came.len() == width * height
    &&& inside(width, height, start)
    &&& at(g, width, start) == 0
    &&& at(came, width, start) is None
    &&& forall|i: int| 0 <= i < g.len() ==> g[i] >= 0
    &&& forall|c: (i32, i32)|
        inside(width, height, c) && (#[trigger] at(came, width, c)) is Some ==> parent_ok(
            may_be_free(blocked),
            width,
            height,
            start,
            g,
            c,
            at(came, width, c)->0,
        )
    &&& forall|c: (i32, i32)|
        inside(width, height, c) && #[trigger] at(g, width, c) < i32::MAX && c != start ==> at(
            came,
            width,
            c,
        ) is Some
    &&& forall|j: int|
        0 <= j < open.len() ==> inside(width, height, ((#[trigger] open[j]).1, open[j].2)) && at(
            g,
            width,
            (open[j].1, open[j].2),
        ) < i32::MAX && open[j].0 >= at(g, width, (open[j].1, open[j].2)) + octile(
            (open[j].1, open[j].2),
            goal,
        )
    &&& inside(width, height, goal) && at(g, width, goal) < i32::MAX ==> in_open(open, goal)
}

proof fn lemma_in_open_push(open: Seq<(i64, i32, i32)>, e: (i64, i32, i32))
    ensures
        forall|c: (i32, i32)| in_open(open, c) ==> #[trigger] in_open(open.push(e), c),
        in_open(open.push(e), (e.1, e.2)),
        forall|c: (i32, i32), f: int| in_open_at(open, c, f) ==> #[trigger] in_open_at(open.push(e), c, f),
        in_open_at(open.push(e), (e.1, e.2), e.0 as int),
{
    assert forall|c: (i32, i32)| in_open(open, c) implies #[trigger] in_open(open.push(e), c) by {
        let j = choose|j: int| 0 <= j < open.len() && (#[trigger] open[j]).1 == c.0 && open[j].2 == c.1;
        assert(open.push(e)[j] == open[j]);
    }
    assert forall|c: (i32, i32), f: int| in_open_at(open, c, f) implies #[trigger] in_open_at(
        open.push(e),
        c,
        f,
    ) by {
        let j = choose|j: int|
            0 <= j < open.len() && (#[trigger] open[j]).1 == c.0 && open[j].2 == c.1 && open[j].0 == f;
        assert(open.push(e)[j] == open[j]);
    }
    assert(open.push(e)[open.len() as int] == e);
}

proof fn lemma_in_open_remove(open: Seq<(i64, i32, i32)>, m: int)
    requires
        0 <= m < open.len(),
    ensures
        forall|c: (i32, i32)|
            in_open(open, c) && c != (open[m].1, open[m].2) ==> #[trigger] in_open(open.remove(m), c),
        forall|j: int|
            0 <= j < open.len() - 1 ==> #[trigger] open.remove(m)[j] == (if j < m {
                open[j]
            } else {
                open[j + 1]
            }),
        forall|c: (i32, i32), f: int|
            in_open_at(open, c, f) && c != (open[m].1, open[m].2) ==> #[trigger] in_open_at(
                open.remove(m),
                c,
                f,
            ),
{
    let r = open.remove(m);
    assert forall|j: int| 0 <= j < open.len() - 1 implies #[trigger] r[j] == (if j < m {
        open[j]
    } else {
        open[j + 1]
    }) by {}
    assert forall|c: (i32, i32)|
        in_open(open, c) && c != (open[m].1, open[m].2) implies #[trigger] in_open(r, c) by {
        let j = choose|j: int| 0 <= j < open.len() && (#[trigger] open[j]).1 == c.0 && open[j].2 == c.1;
        if j < m {
            assert(r[j] == open[j]);
        } else {
            assert(j != m);
            assert(r[j - 1] == open[j]);
        }
    }
    assert forall|c: (i32, i32), f: int|
        in_open_at(open, c, f) && c != (open[m].1, open[m].2) implies #[trigger] in_open_at(r, c, f) by {
        let j = choose|j: int|
            0 <= j < open.len() && (#[trigger] open[j]).1 == c.0 && open[j].2 == c.1 && open[j].0 == f;
        if j < m {
            assert(r[j] == open[j]);
        } else {
            assert(j != m);
            assert(r[j - 1] == open[j]);
        }
    }
}

/// Popping a cell other than the goal keeps the search invariant, and every
/// other cell stays settled.
proof fn lemma_pop<F: Fn(i32, i32) -> bool>(
    blocked: F,
    width: int,
    height: int,
    start: (i32, i32),
    goal: (i32, i32),
    g: Seq<i32>,
    came: Seq<Option<(i32, i32)>>,
    open: Seq<(i64, i32, i32)>,
    m: int,
)
    requires
        search_inv(blocked, width, height, start, goal, g, came, open),
        forall|c: (i32, i32)|
            inside(width, height, c) ==> #[trigger] settled(blocked, width, height, goal, g, open, c),
        0 <= m < open.len(),
        (open[m].1, open[m].2) != goal,
    ensures
        search_inv(blocked, width, height, start, goal, g, came, open.remove(m)),
        forall|c: (i32, i32)|
            inside(width, height, c) && c != (open[m].1, open[m].2) ==> #[trigger] settled(
                blocked,
                width,
                height,
                goal,
                g,
                open.remove(m),
                c,
            ),
        inside(width, height, (open[m].1, open[m].2)),
        at(g, width, (open[m].1, open[m].2)) < i32::MAX,
{
    lemma_in_open_remove(open, m);
    let r = open.remove(m);
    assert forall|j: int| 0 <= j < r.len() implies inside(width, height, ((#[trigger] r[j]).1, r[j].2))
        && at(g, width, (r[j].1, r[j].2)) < i32::MAX && r[j].0 >= at(g, width, (r[j].1, r[j].2))
        + octile((r[j].1, r[j].2), goal) by {
        if j < m {
            assert(r[j] == open[j]);
        } else {
            assert(r[j] == open[j + 1]);
        }
    }
    assert forall|c: (i32, i32)|
        inside(width, height, c) && c != (open[m].1, open[m].2) implies #[trigger] settled(
        blocked,
        width,
        height,
        goal,
        g,
        r,
        c,
    ) by {
        assert(settled(blocked, width, height, goal, g, open, c));
    }
    assert(inside(width, height, (open[m].1, open[m].2)));
}

/// Relaxing the move from `cur` to `n` with a better cost keeps the search
/// invariant.
proof fn lemma_improve_inv<F: Fn(i32, i32) -> bool>(
    blocked: F,
    width: int,
    height: int,
    start: (i32, i32),
    goal: (i32, i32),
    g: Seq<i32>,
    came: Seq<Option<(i32, i32)>>,
    open: Seq<(i64, i32, i32)>,
    cur: (i32, i32),
    g_cur: int,
    n: (i32, i32),
    new_g: i32,
    f: i64,
)
    requires
        search_inv(blocked, width, height, start, goal, g, came, open),
        inside(width, height, cur),
        g_cur == at(g, width, cur),
        inside(width, height, n),
        move_ok(may_be_free(blocked), width, height, cur, n),
        new_g == g_cur + step_cost(cur, n),
        new_g < at(g, width, n),
        f == new_g + octile(n, goal),
    ensures
        ({
            let i = n.1 * width + n.0;
            let g2 = g.update(i, new_g);
            let came2 = came.update(i, Some(cur));
            let open2 = open.push((f, n.0, n.1));
            &&& search_inv(blocked, width, height, start, goal, g2, came2, open2)
            &&& at(g2, width, cur) == g_cur
            &&& at(g2, width, n) == new_g
            &&& total(g2) < total(g)
        }),
{
    let i = n.1 * width + n.0;
    let g2 = g.update(i, new_g);
    let came2 = came.update(i, Some(cur));
    let e = (f, n.0, n.1);
    let open2 = open.push(e);
    lemma_cell_index(width, height, n.0 as int, n.1 as int);
    lemma_cell_index(width, height, cur.0 as int, cur.1 as int);
    assert(g[cur.1 * width + cur.0] >= 0);
    lemma_at_update(g, width, height, n, new_g);
    lemma_at_update(came, width, height, n, Some(cur));
    lemma_in_open_push(open, e);
    lemma_total_update(g, i, new_g);
    assert(at(g, width, n) == g[i]);
    assert(n != cur);
    assert(n != start);
    assert(at(g2, width, cur) == g_cur);
    assert(at(g2, width, start) == 0);
    assert(at(came2, width, start) is None);
    assert forall|c: (i32, i32)|
        inside(width, height, c) && (#[trigger] at(came2, width, c)) is Some implies parent_ok(
        may_be_free(blocked),
        width,
        height,
        start,
        g2,
        c,
        at(came2, width, c)->0,
    ) by {
        if c != n {
            let p = at(came, width, c)->0;
            assert(parent_ok(may_be_free(blocked), width, height, start, g, c, p));
            assert(at(g2, width, p) <= at(g, width, p));
        }
    }
    assert forall|c: (i32, i32)|
        inside(width, height, c) && #[trigger] at(g2, width, c) < i32::MAX && c != start implies at(
        came2,
        width,
        c,
    ) is Some by {
        if c != n {
            assert(at(g, width, c) < i32::MAX);
        }
    }
    assert forall|j: int| 0 <= j < open2.len() implies inside(
        width,
        height,
        ((#[trigger] open2[j]).1, open2[j].2),
    ) && at(g2, width, (open2[j].1, open2[j].2)) < i32::MAX && open2[j].0 >= at(
        g2,
        width,
        (open2[j].1, open2[j].2),
    ) + octile((open2[j].1, open2[j].2), goal) by {
        if j < open.len() {
            assert(open2[j] == open[j]);
            let c = (open[j].1, open[j].2);
            assert(at(g2, width, c) <= at(g, width, c));
        }
    }
    assert(forall|ii: int| 0 <= ii < g2.len() ==> g2[ii] >= 0);
    assert(inside(width, height, goal) && at(g2, width, goal) < i32::MAX ==> in_open(open2, goal)) by {
        if inside(width, height, goal) && at(g2, width, goal) < i32::MAX && goal != n {
            assert(at(g, width, goal) < i32::MAX);
        }
    }
}

/// Lowering the cost of `n` (and queueing it) keeps every other cell settled.
proof fn lemma_improve_settled<F: Fn(i32, i32) -> bool>(
    blocked: F,
    width: int,
    height: int,
    goal: (i32, i32),
    g: Seq<i32>,
    open: Seq<(i64, i32, i32)>,
    cur: (i32, i32),
    n: (i32, i32),
    new_g: i32,
    f: i64,
)
    requires
        g.len() == width * height,
        forall|c: (i32, i32)|
            inside(width, height, c) && c != cur ==> #[trigger] settled(
                blocked,
                width,
                height,
                goal,
                g,
                open,
                c,
            ),
        inside(width, height, n),
        new_g < at(g, width, n),
        f == new_g + octile(n, goal),
    ensures
        forall|c: (i32, i32)|
            inside(width, height, c) && c != cur ==> #[trigger] settled(
                blocked,
                width,
                height,
                goal,
                g.update(n.1 * width + n.0, new_g),
                open.push((f, n.0, n.1)),
                c,
            ),
{
    let g2 = g.update(n.1 * width + n.0, new_g);
    let e = (f, n.0, n.1);
    let open2 = open.push(e);
    lemma_at_update(g, width, height, n, new_g);
    lemma_in_open_push(open, e);
    assert forall|c: (i32, i32)| inside(width, height, c) && c != cur implies #[trigger] settled(
        blocked,
        width,
        height,
        goal,
        g2,
        open2,
        c,
    ) by {
        if c != n && at(g2, width, c) < i32::MAX {
            assert(settled(blocked, width, height, goal, g, open, c));
            if !in_open_at(open, c, at(g, width, c) + octile(c, goal)) {
                assert forall|m: (i32, i32)|
                    #[trigger] move_ok(surely_free(blocked), width, height, c, m) implies at(
                    g2,
                    width,
                    m,
                ) <= sat(at(g2, width, c) + step_cost(c, m)) by {
                    assert(at(g, width, m) <= sat(at(g, width, c) + step_cost(c, m)));
                }
            }
        }
    }
}

/// Lowering a cost keeps the directions already relaxed relaxed.
proof fn lemma_improve_relaxed<F: Fn(i32, i32) -> bool>(
    blocked: F,
    width: int,
    height: int,
    g: Seq<i32>,
    cur: (i32, i32),
    g_cur: int,
    k: int,
    n: (i32, i32),
    new_g: i32,
)
    requires
        g.len() == width * height,
        forall|kk: int| 0 <= kk < k ==> #[trigger] relaxed(blocked, width, height, g, cur, g_cur, kk),
        inside(width, height, n),
        new_g < at(g, width, n),
    ensures
        forall|kk: int|
            0 <= kk < k ==> #[trigger] relaxed(
                blocked,
                width,
                height,
                g.update(n.1 * width + n.0, new_g),
                cur,
                g_cur,
                kk,
            ),
{
    let g2 = g.update(n.1 * width + n.0, new_g);
    lemma_at_update(g, width, height, n, new_g);
    assert forall|kk: int| 0 <= kk < k implies #[trigger] relaxed(
        blocked,
        width,
        height,
        g2,
        cur,
        g_cur,
        kk,
    ) by {
        assert(relaxed(blocked, width, height, g, cur, g_cur, kk));
    }
}

proof fn lemma_walk_cost<F: Fn(i32, i32) -> bool>(
    blocked: F,
    width: int,
    height: int,
    start: (i32, i32),
    goal: (i32, i32),
    g: Seq<i32>,
    came: Seq<Option<(i32, i32)>>,
    open: Seq<(i64, i32, i32)>,
    cells: Seq<(i32, i32)>,
    k: int,
)
    requires
        search_inv(blocked, width, height, start, goal, g, came, open),
        open.len() == 0,
        forall|c: (i32, i32)|
            inside(width, height, c) ==> #[trigger] settled(blocked, width, height, goal, g, open, c),
        short_walk(surely_free(blocked), width, height, start, goal, cells),
        0 <= k < cells.len(),
    ensures
        inside(width, height, cells[k]),
        at(g, width, cells[k]) <= 14 * k,
    decreases k,
{
    if k > 0 {
        lemma_walk_cost(blocked, width, height, start, goal, g, came, open, cells, k - 1);
        let c = cells[k - 1];
        let n = cells[k];
        assert(step_ok(surely_free(blocked), width, height, cells, k - 1));
        assert(move_ok(surely_free(blocked), width, height, c, n));
        assert(settled(blocked, width, height, goal, g, open, c));
        assert(!in_open_at(open, c, at(g, width, c) + octile(c, goal)));
        assert(expanded(blocked, width, height, g, c));
    }
}

/// When the open list runs dry the goal was never reached, and then no
/// short legal walk leads from the start to the goal.
proof fn lemma_exhausted<F: Fn(i32, i32) -> bool>(
    blocked: F,
    width: int,
    height: int,
    start: (i32, i32),
    goal: (i32, i32),
    g: Seq<i32>,
    came: Seq<Option<(i32, i32)>>,
    open: Seq<(i64, i32, i32)>,
)
    requires
        search_inv(blocked, width, height, start, goal, g, came, open),
        open.len() == 0,
        forall|c: (i32, i32)|
            inside(width, height, c) ==> #[trigger] settled(blocked, width, height, goal, g, open, c),
        start != goal,
    ensures
        forall|cells: Seq<(i32, i32)>|
            !#[trigger] short_walk(surely_free(blocked), width, height, start, goal, cells),
{
    assert forall|cells: Seq<(i32, i32)>|
        !#[trigger] short_walk(surely_free(blocked), width, height, start, goal, cells) by {
        if short_walk(surely_free(blocked), width, height, start, goal, cells) {
            let last = cells.len() - 1;
            lemma_walk_cost(blocked, width, height, start, goal, g, came, open, cells, last);
            assert(cells[last] == goal);
            assert(!in_open(open, goal));
        }
    }
}

/// One step never shortens the octile distance by more than its cost.
proof fn lemma_octile_triangle(a: (i32, i32), b: (i32, i32), c: (i32, i32))
    requires
        adjacent(b, c),
    ensures
        octile(a, c) <= octile(a, b) + step_cost(b, c),
{
}

proof fn lemma_walk_drop_last(free: spec_fn((i32, i32)) -> bool, width: int, height: int, s: Seq<(i32, i32)>)
    requires
        s.len() >= 1,
        is_walk(free, width, height, s),
    ensures
        is_walk(free, width, height, s.drop_last()),
{
    let t = s.drop_last();
    assert forall|k: int| 0 <= k < t.len() - 1 implies #[trigger] step_ok(free, width, height, t, k) by {
        assert(step_ok(free, width, height, s, k));
        assert(t[k] == s[k] && t[k + 1] == s[k + 1]);
    }
}

/// The octile distance between the ends of a walk is at most its cost.
proof fn lemma_octile_le_cost(free: spec_fn((i32, i32)) -> bool, width: int, height: int, s: Seq<(i32, i32)>)
    requires
        s.len() >= 1,
        is_walk(free, width, height, s),
    ensures
        octile(s[0], s.last()) <= walk_cost(s),
    decreases s.len(),
{
    if s.len() > 1 {
        let t = s.drop_last();
        lemma_walk_drop_last(free, width, height, s);
        lemma_octile_le_cost(free, width, height, t);
        assert(step_ok(free, width, height, s, s.len() - 2));
        lemma_octile_triangle(s[0], s[s.len() - 2], s.last());
    }
}

proof fn lemma_cost_bound(s: Seq<(i32, i32)>)
    requires
        s.len() >= 1,
    ensures
        0 <= walk_cost(s) <= 14 * (s.len() - 1),
    decreases s.len(),
{
    if s.len() > 1 {
        lemma_cost_bound(s.drop_last());
    }
}

/// The cost of a walk splits at any of its cells.
proof fn lemma_cost_split(s: Seq<(i32, i32)>, i: int)
    requires
        0 <= i < s.len(),
    ensures
        walk_cost(s) == walk_cost(s.subrange(0, i + 1)) + walk_cost(s.subrange(i, s.len() as int)),
    decreases s.len(),
{
    if i == s.len() - 1 {
        assert(s.subrange(0, i + 1) =~= s);
        assert(s.subrange(i, s.len() as int).len() == 1);
    } else {
        let t = s.drop_last();
        lemma_cost_split(t, i);
        assert(t.subrange(0, i + 1) =~= s.subrange(0, i + 1));
        let u = s.subrange(i, s.len() as int);
        assert(u.drop_last() =~= t.subrange(i, t.len() as int));
        assert(u[u.len() - 2] == s[s.len() - 2] && u.last() == s.last());
    }
}

/// Putting a cell in front of a walk adds the cost of the first move.
proof fn lemma_cost_prepend(p: (i32, i32), s: Seq<(i32, i32)>)
    requires
        s.len() >= 1,
    ensures
        walk_cost(seq![p] + s) == step_cost(p, s[0]) + walk_cost(s),
    decreases s.len(),
{
    let ps = seq![p] + s;
    if s.len() == 1 {
        assert(ps.drop_last() =~= seq![p]);
        assert(walk_cost(seq![p]) == 0);
        assert(ps[0] == p && ps.last() == s[0]);
        assert(walk_cost(s) == 0);
    } else {
        lemma_cost_prepend(p, s.drop_last());
        assert(ps.drop_last() =~= seq![p] + s.drop_last());
        assert(ps[ps.len() - 2] == s[s.len() - 2]);
        assert(ps.last() == s.last());
        assert(s.drop_last()[0] == s[0]);
    }
}

/// Along a short legal walk from the start, either each cell's recorded
/// cost is at most the cost of the walk up to it, or some earlier cell
/// within that bound still waits in the open list with its current priority.
proof fn lemma_along<F: Fn(i32, i32) -> bool>(
    blocked: F,
    width: int,
    height: int,
    start: (i32, i32),
    goal: (i32, i32),
    g: Seq<i32>,
    came: Seq<Option<(i32, i32)>>,
    open: Seq<(i64, i32, i32)>,
    cells: Seq<(i32, i32)>,
    k: int,
) -> (i: int)
    requires
        search_inv(blocked, width, height, start, goal, g, came, open),
        forall|c: (i32, i32)|
            inside(width, height, c) ==> #[trigger] settled(blocked, width, height, goal, g, open, c),
        short_walk(surely_free(blocked), width, height, start, goal, cells),
        0 <= k < cells.len(),
    ensures
        inside(width, height, cells[k]),
        i == -1 ==> at(g, width, cells[k]) <= walk_cost(cells.subrange(0, k + 1)),
        i != -1 ==> 0 <= i <= k && at(g, width, cells[i]) <= walk_cost(cells.subrange(0, i + 1))
            && in_open_at(open, cells[i], at(g, width, cells[i]) + octile(cells[i], goal)),
    decreases k,
{
    if k == 0 {
        assert(cells.subrange(0, 1).len() == 1);
        -1
    } else {
        let prev = lemma_along(blocked, width, height, start, goal, g, came, open, cells, k - 1);
        assert(step_ok(surely_free(blocked), width, height, cells, k - 1));
        if prev != -1 {
            prev
        } else {
            let c = cells[k - 1];
            let n = cells[k];
            let pre = cells.subrange(0, k + 1);
            assert(pre.drop_last() =~= cells.subrange(0, k));
            assert(pre[pre.len() - 2] == c && pre.last() == n);
            lemma_cost_bound(cells.subrange(0, k));
            assert(settled(blocked, width, height, goal, g, open, c));
            if in_open_at(open, c, at(g, width, c) + octile(c, goal)) {
                k - 1
            } else {
                assert(expanded(blocked, width, height, g, c));
                assert(move_ok(surely_free(blocked), width, height, c, n));
                -1
            }
        }
    }
}

/// When the goal leaves the open list with the least priority, its recorded
/// cost is at most the cost of any short legal walk to it.
proof fn lemma_goal_optimal<F: Fn(i32, i32) -> bool>(
    blocked: F,
    width: int,
    height: int,
    start: (i32, i32),
    goal: (i32, i32),
    g: Seq<i32>,
    came: Seq<Option<(i32, i32)>>,
    open: Seq<(i64, i32, i32)>,
    m: int,
    cells: Seq<(i32, i32)>,
)
    requires
        search_inv(blocked, width, height, start, goal, g, came, open),
        forall|c: (i32, i32)|
            inside(width, height, c) ==> #[trigger] settled(blocked, width, height, goal, g, open, c),
        0 <= m < open.len(),
        (open[m].1, open[m].2) == goal,
        forall|j: int| 0 <= j < open.len() ==> open[m].0 <= #[trigger] open[j].0,
        short_walk(surely_free(blocked), width, height, start, goal, cells),
    ensures
        at(g, width, goal) <= walk_cost(cells),
{
    let n = cells.len() as int;
    let i = lemma_along(blocked, width, height, start, goal, g, came, open, cells, n - 1);
    assert(cells.subrange(0, n) =~= cells);
    assert(open[m].0 >= at(g, width, goal) + octile(goal, goal));
    if i != -1 {
        let v = cells[i];
        let j = choose|j: int|
            0 <= j < open.len() && (#[trigger] open[j]).1 == v.0 && open[j].2 == v.1 && open[j].0
                == at(g, width, v) + octile(v, goal);
        let suffix = cells.subrange(i, n);
        assert forall|k: int| 0 <= k < suffix.len() - 1 implies #[trigger] step_ok(
            surely_free(blocked),
            width,
            height,
            suffix,
            k,
        ) by {
            assert(step_ok(surely_free(blocked), width, height, cells, i + k));
            assert(suffix[k] == cells[i + k] && suffix[k + 1] == cells[i + k + 1]);
        }
        lemma_octile_le_cost(surely_free(blocked), width, height, suffix);
        assert(suffix[0] == v && suffix.last() == goal);
        lemma_cost_split(cells, i);
        assert(open[m].0 <= open[j].0);
    }
}

/// Follows the predecessor links back from the goal.
fn reconstruct(
    came_from: &Vec<Option<(i32, i32)>>,
    g_score: &Vec<i32>,
    width: i32,
    height: i32,
    goal: (i32, i32),
    start: (i32, i32),
    Ghost(free): Ghost<spec_fn((i32, i32)) -> bool>,
) -> (path: Vec<(i32, i32)>)
    requires
        g_score@.len() == width * height,
        came_from@.len() == width * height,
        width * height <= i32::MAX,
        inside(width as int, height as int, goal),
        goal != start,
        at(g_score@, width as int, goal) < i32::MAX,
        forall|i: int| 0 <= i < g_score@.len() ==> g_score@[i] >= 0,
        forall|c: (i32, i32)|
            inside(width as int, height as int, c) && (#[trigger] at(
                came_from@,
                width as int,
                c,
            )) is Some ==> parent_ok(
                free,
                width as int,
                height as int,
                start,
                g_score@,
                c,
                at(came_from@, width as int, c)->0,
            ),
        forall|c: (i32, i32)|
            inside(width as int, height as int, c) && #[trigger] at(g_score@, width as int, c)
                < i32::MAX && c != start ==> at(came_from@, width as int, c) is Some,
        at(g_score@, width as int, start) == 0,
    ensures
        path@.len() > 0,
        path@.last() == goal,
        is_walk(free, width as int, height as int, seq![start] + path@),
        walk_cost(seq![start] + path@) <= at(g_score@, width as int, goal),
        forall|i: int| 0 <= i < path@.len() ==> path@[i] != start,
{
    let ghost w = width as int;
    let ghost h = height as int;
    let mut rev: Vec<(i32, i32)> = Vec::new();
    let mut cur = goal;
    let ghost mut tail: Seq<(i32, i32)> = Seq::empty();
    assert(seq![cur] + tail =~= seq![goal]);
    loop
        invariant_except_break
            inside(w, h, cur),
            cur != start,
            at(g_score@, w, cur) < i32::MAX,
            is_walk(free, w, h, seq![cur] + tail),
            (seq![cur] + tail).last() == goal,
            walk_cost(seq![cur] + tail) + at(g_score@, w, cur) <= at(g_score@, w, goal),
        invariant
            at(g_score@, w, start) == 0,
            g_score@.len() == width * height,
            came_from@.len() == width * height,
            width * height <= i32::MAX,
            goal != start,
            forall|c: (i32, i32)|
                inside(w, h, c) && (#[trigger] at(came_from@, w, c)) is Some ==> parent_ok(
                    free,
                    w,
                    h,
                    start,
                    g_score@,
                    c,
                    at(came_from@, w, c)->0,
                ),
            forall|c: (i32, i32)|
                inside(w, h, c) && #[trigger] at(g_score@, w, c) < i32::MAX && c != start ==> at(
                    came_from@,
                    w,
                    c,
                ) is Some,
            w == width,
            h == height,
            forall|i: int| 0 <= i < g_score@.len() ==> g_score@[i] >= 0,
            rev@.len() == tail.len(),
            forall|i: int| 0 <= i < tail.len() ==> rev@[i] == tail[tail.len() - 1 - i],
            forall|i: int| 0 <= i < tail.len() ==> tail[i] != start,
        ensures
            rev@.len() == tail.len(),
            tail.len() > 0,
            forall|i: int| 0 <= i < tail.len() ==> rev@[i] == tail[tail.len() - 1 - i],
            is_walk(free, w, h, seq![start] + tail),
            tail.last() == goal,
            walk_cost(seq![start] + tail) <= at(g_score@, w, goal),
            forall|i: int| 0 <= i < tail.len() ==> tail[i] != start,
        decreases at(g_score@, w, cur),
    {
        let ghost old_tail = tail;
        rev.push(cur);
        proof {
            tail = seq![cur] + old_tail;
            assert forall|i: int| 0 <= i < tail.len() implies rev@[i] == tail[tail.len() - 1 - i] by {
                if i < old_tail.len() {
                    assert(rev@[i] == old_tail[old_tail.len() - 1 - i]);
                }
            }
            assert forall|i: int| 0 <= i < tail.len() implies tail[i] != start by {
                if i > 0 {
                    assert(tail[i] == old_tail[i - 1]);
                }
            }
        }
        let ci = cell_index(width, height, cur.0, cur.1);
        assert(came_from@[ci as int] == at(came_from@, w, cur));
        match came_from[ci] {
            Some(prev) => {
                let ghost c = cur;
                assert(parent_ok(free, w, h, start, g_score@, c, prev));
                proof {
                    assert forall|k: int| 0 <= k < (seq![prev] + tail).len() - 1 implies #[trigger] step_ok(
                        free,
                        w,
                        h,
                        seq![prev] + tail,
                        k,
                    ) by {
                        if k > 0 {
                            assert(step_ok(free, w, h, seq![c] + old_tail, k - 1));
                            assert((seq![prev] + tail)[k] == (seq![c] + old_tail)[k - 1]);
                            assert((seq![prev] + tail)[k + 1] == (seq![c] + old_tail)[k]);
                        } else {
                            assert((seq![prev] + tail)[1] == c);
                        }
                    }
                    assert((seq![prev] + tail).last() == goal);
                    lemma_cost_prepend(prev, tail);
                    assert(tail[0] == c);
                }
                if prev.0 == start.0 && prev.1 == start.1 {
                    break;
                }
                proof {
                    lemma_cell_index(w, h, prev.0 as int, prev.1 as int);
                    assert(g_score@[prev.1 * w + prev.0] >= 0);
                }
                cur = prev;
            },
            None => {
                break;
            },
        }
    }
    let mut path: Vec<(i32, i32)> = Vec::new();
    let mut i: usize = 0;
    let n = rev.len();
    while i < n
        invariant
            n == rev@.len(),
            n == tail.len(),
            i <= n,
            forall|j: int| 0 <= j < tail.len() ==> rev@[j] == tail[tail.len() - 1 - j],
            path@ =~= tail.subrange(0, i as int),
        decreases n - i,
    {
        path.push(rev[n - 1 - i]);
        i = i + 1;
    }
    assert(path@ =~= tail);
    path
}

/// A* from `start` to `goal` in a `width`×`height` grid where
/// `blocked(x, y)` says whether a cell is blocked.
///
/// Returns the cells of the path, `start` excluded and `goal` included; an
/// empty vector when `start == goal` or when the goal cannot be reached.
/// Costs are 10 per straight and 14 per diagonal step, and a diagonal step
/// never cuts the corner of a blocked cell. The octile heuristic never
/// overestimates, so the path found costs no more than any legal walk.
///
/// The start must lie in the grid (the search indexes its cell) and the
/// cell count must fit in an `i32` (its index arithmetic overflows
/// otherwise). Costs
/// plus heuristic are ordered in 64 bits, where they cannot overflow.
pub fn find_path(
    blocked: impl Fn(i32, i32) -> bool,
    width: i32,
    height: i32,
    start: (i32, i32),
    goal: (i32, i32),
) -> (path: Vec<(i32, i32)>)
    requires
        forall|x: i32, y: i32| blocked.requires((x, y)),
        0 <= width * height <= i32::MAX,
        0 <= start.0 < width,
        0 <= start.1 < height,
    ensures
        start == goal ==> path@.len() == 0,
        path@.len() > 0 ==> path@.last() == goal && is_walk(
            may_be_free(blocked),
            width as int,
            height as int,
            seq![start] + path@,
        ),
        path@.len() > 0 ==> forall|cells: Seq<(i32, i32)>|
            #[trigger] short_walk(
                surely_free(blocked),
                width as int,
                height as int,
                start,
                goal,
                cells,
            ) ==> walk_cost(seq![start] + path@) <= walk_cost(cells),
        forall|i: int| 0 <= i < path@.len() ==> path@[i] != start,
        path@.len() == 0 && start != goal ==> forall|cells: Seq<(i32, i32)>|
            !#[trigger] short_walk(
                surely_free(blocked),
                width as int,
                height as int,
                start,
                goal,
                cells,
            ),
{
    if start.0 == goal.0 && start.1 == goal.1 {
        return Vec::new();
    }
    let w = Ghost(width as int);
    let h = Ghost(height as int);
    let size = (width * height) as usize;
    let mut g_score: Vec<i32> = Vec::new();
    let mut came_from: Vec<Option<(i32, i32)>> = Vec::new();
    let mut i: usize = 0;
    while i < size
        invariant
            i <= size,
            g_score@.len() == i,
            came_from@.len() == i,
            forall|j: int| 0 <= j < i ==> g_score@[j] == i32::MAX,
            forall|j: int| 0 <= j < i ==> came_from@[j] is None,
        decreases size - i,
    {
        g_score.push(i32::MAX);
        came_from.push(None);
        i = i + 1;
    }
    let si = cell_index(width, height, start.0, start.1);
    let ghost g0 = g_score@;
    g_score.set(si, 0);
    let mut open: Vec<(i64, i32, i32)> = Vec::new();
    open.push((heuristic(start, goal), start.0, start.1));
    proof {
        lemma_at_update(g0, w@, h@, start, 0i32);
        assert(open@[0].1 == start.0 && open@[0].2 == start.1);
        assert(in_open(open@, start));
        assert forall|c: (i32, i32)| inside(w@, h@, c) implies at(came_from@, w@, c) is None by {
            lemma_cell_index(w@, h@, c.0 as int, c.1 as int);
        }
        assert forall|c: (i32, i32)| inside(w@, h@, c) && c != start implies at(g_score@, w@, c)
            == i32::MAX by {
            lemma_cell_index(w@, h@, c.0 as int, c.1 as int);
        }
        assert forall|c: (i32, i32)| inside(w@, h@, c) implies #[trigger] settled(
            blocked,
            w@,
            h@,
            goal,
            g_score@,
            open@,
            c,
        ) by {}
    }
    while open.len() > 0
        invariant
            forall|x: i32, y: i32| blocked.requires((x, y)),
            0 <= width * height <= i32::MAX,
            w@ == width,
            h@ == height,
            start != goal,
            search_inv(blocked, w@, h@, start, goal, g_score@, came_from@, open@),
            forall|c: (i32, i32)|
                inside(w@, h@, c) ==> #[trigger] settled(blocked, w@, h@, goal, g_score@, open@, c),
        decreases 9 * total(g_score@) + open@.len(),
    {
        proof {
            lemma_total_nonneg(g_score@);
        }
        let ghost m_start = 9 * total(g_score@) + open@.len();
        let m = min_entry(&open);
        let ghost before_pop = open@;
        proof {
            if (before_pop[m as int].1, before_pop[m as int].2) != goal {
                lemma_pop(blocked, w@, h@, start, goal, g_score@, came_from@, before_pop, m as int);
            }
        }
        let e = open.remove(m);
        let x = e.1;
        let y = e.2;
        let ghost cur = (x, y);
        if x == goal.0 && y == goal.1 {
            assert(at(g_score@, w@, goal) < i32::MAX);
            proof {
                assert forall|cells: Seq<(i32, i32)>|
                    #[trigger] short_walk(
                        surely_free(blocked),
                        w@,
                        h@,
                        start,
                        goal,
                        cells,
                    ) implies at(g_score@, w@, goal) <= walk_cost(cells) by {
                    lemma_goal_optimal(
                        blocked,
                        w@,
                        h@,
                        start,
                        goal,
                        g_score@,
                        came_from@,
                        before_pop,
                        m as int,
                        cells,
                    );
                }
            }
            return reconstruct(
                &came_from,
                &g_score,
                width,
                height,
                goal,
                start,
                Ghost(may_be_free(blocked)),
            );
        }
        let ci = cell_index(width, height, x, y);
        let g_cur = g_score[ci];
        assert(g_cur == at(g_score@, w@, cur));
        let nb_cells = neighbors(x, y);
        let mut k: usize = 0;
        while k < 8
            invariant
                forall|x: i32, y: i32| blocked.requires((x, y)),
                0 <= width * height <= i32::MAX,
                w@ == width,
                h@ == height,
                start != goal,
                cur == (x, y),
                cur != goal,
                inside(w@, h@, cur),
                g_cur == at(g_score@, w@, cur),
                g_cur < i32::MAX,
                k <= 8,
                forall|kk: int|
                    0 <= kk < 8 ==> (#[trigger] nb_cells@[kk]).0 == x + dir_x(kk)
                        && nb_cells@[kk].1 == y + dir_y(kk) && nb_cells@[kk].2 == (if dir_x(kk)
                        != 0 && dir_y(kk) != 0 {
                        14int
                    } else {
                        10int
                    }),
                search_inv(blocked, w@, h@, start, goal, g_score@, came_from@, open@),
                forall|c: (i32, i32)|
                    inside(w@, h@, c) && c != cur ==> #[trigger] settled(
                        blocked,
                        w@,
                        h@,
                        goal,
                        g_score@,
                        open@,
                        c,
                    ),
                forall|kk: int|
                    0 <= kk < k ==> #[trigger] relaxed(blocked, w@, h@, g_score@, cur, g_cur as int, kk),
                9 * total(g_score@) + open@.len() < m_start,
            decreases 8 - k,
        {
            let (nx, ny, step) = nb_cells[k];
            let ghost n = (nx, ny);
            assert(nb_cells@[k as int] == (nx, ny, step));
            assert(n == nb(cur, k as int));
            assert(step == step_cost(cur, n));
            if nx < 0 || ny < 0 || nx >= width || ny >= height {
                assert(!move_ok(surely_free(blocked), w@, h@, cur, n));
            } else if blocked(nx, ny) {
                assert(!surely_free(blocked)(n));
            } else {
                let diag = nx != x && ny != y;
                let mut cut = false;
                if diag {
                    let b1 = blocked(x, ny);
                    if b1 {
                        cut = true;
                        proof {
                            lemma_not_surely_free(blocked, x, ny);
                        }
                    } else {
                        let b2 = blocked(nx, y);
                        cut = b2;
                        if b2 {
                            proof {
                                lemma_not_surely_free(blocked, nx, y);
                            }
                        }
                    }
                }
                if !cut {
                let new_g = if g_cur > i32::MAX - step {
                    i32::MAX
                } else {
                    g_cur + step
                };
                let ni = cell_index(width, height, nx, ny);
                assert(g_score@[ni as int] == at(g_score@, w@, n));
                if new_g < g_score[ni] {
                    let f = new_g as i64 + heuristic((nx, ny), goal);
                    proof {
                        lemma_improve_inv(
                            blocked,
                            w@,
                            h@,
                            start,
                            goal,
                            g_score@,
                            came_from@,
                            open@,
                            cur,
                            g_cur as int,
                            n,
                            new_g,
                            f,
                        );
                        lemma_improve_settled(blocked, w@, h@, goal, g_score@, open@, cur, n, new_g, f);
                        lemma_improve_relaxed(
                            blocked,
                            w@,
                            h@,
                            g_score@,
                            cur,
                            g_cur as int,
                            k as int,
                            n,
                            new_g,
                        );
                    }
                    g_score.set(ni, new_g);
                    came_from.set(ni, Some((x, y)));
                    open.push((f, nx, ny));
                }
                }
            }
            assert(relaxed(blocked, w@, h@, g_score@, cur, g_cur as int, k as int));
            k = k + 1;
        }
        proof {
            assert forall|n: (i32, i32)|
                #[trigger] move_ok(surely_free(blocked), w@, h@, cur, n) implies at(g_score@, w@, n)
                <= sat(at(g_score@, w@, cur) + step_cost(cur, n)) by {
                let kk = lemma_dir_of(cur, n);
                assert(nb(cur, kk) == n);
                assert(relaxed(blocked, w@, h@, g_score@, cur, g_cur as int, kk));
            }
            assert(expanded(blocked, w@, h@, g_score@, cur));
            assert(settled(blocked, w@, h@, goal, g_score@, open@, cur));
            lemma_total_nonneg(g_score@);
        }
    }
    proof {
        lemma_exhausted(blocked, w@, h@, start, goal, g_score@, came_from@, open@);
    }
    Vec::new()
}

} // verus!
