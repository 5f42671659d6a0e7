//! A* search over the map, through the `pathfinding` crate.

use vstd::prelude::*;

use crate::geometry::{adjacent, distance, distance_2d, king_distance, Point};
use crate::map::{neighbour_delta, WorldMap};

verus! {

/// The moves offered from `p` on the way to `end`: where `end` is one step away
/// (Euclidean distance 1), only `end` itself, even where it is blocked; otherwise
/// the unblocked neighbours of `p`.
pub open spec fn step_targets(m: WorldMap, p: Point, end: Point) -> Seq<Point> {
    if distance(p, end) == 1 {
        seq![end]
    } else {
        m.exits(p)
    }
}

/// `path` is a non-empty sequence of moves offered by `step_targets`.
pub open spec fn is_search_path(m: WorldMap, end: Point, path: Seq<Point>) -> bool {
    &&& path.len() >= 1
    &&& forall|k: int| 0 <= k < path.len() - 1 ==> #[trigger] step_targets(m, path[k], end).contains(path[k + 1])
}

/// Some search path leads from `start` to `end`.
pub open spec fn search_path_exists(m: WorldMap, start: Point, end: Point) -> bool {
    exists|path: Seq<Point>| #[trigger] is_search_path(m, end, path) && path[0] == start && path.last() == end
}

/// `path` is a non-empty walk over unblocked neighbours.
pub open spec fn is_walk(m: WorldMap, path: Seq<Point>) -> bool {
    &&& path.len() >= 1
    &&& forall|k: int| 0 <= k < path.len() - 1 ==> #[trigger] m.exits(path[k]).contains(path[k + 1])
}

/// Whether `p` is the goal.
fn reached(p: &Point, end: &Point) -> (r: bool)
    ensures
        r == (*p == *end),
{
    p.x == end.x && p.y == end.y
}

/// The heuristic: the Euclidean distance to the goal, rounded down.
fn estimate(p: &Point, end: &Point) -> (r: u64)
    ensures
        r == distance(*p, *end),
{
    distance_2d(*p, *end)
}

/// The moves offered from `p`, each at cost one.
fn successors(map: &WorldMap, p: &Point, end: &Point) -> (r: Vec<(Point, u64)>)
    requires
        map.wf(),
    ensures
        r@.len() == step_targets(*map, *p, *end).len(),
        forall|k: int| 0 <= k < r@.len() ==> #[trigger] r@[k] == (step_targets(*map, *p, *end)[k], 1u64),
{
    let targets = if distance_2d(*p, *end) == 1 {
        let mut v: Vec<Point> = Vec::new();
        v.push(*end);
        proof {
            assert(v@ =~= seq![*end]);
        }
        v
    } else {
        map.get_adjacent_exits(*p)
    };
    let mut r: Vec<(Point, u64)> = Vec::new();
    let mut k: usize = 0;
    while k < targets.len()
        invariant
            k <= targets@.len(),
            targets@ == step_targets(*map, *p, *end),
            r@.len() == k,
            forall|j: int| 0 <= j < k ==> #[trigger] r@[j] == (targets@[j], 1u64),
        decreases targets@.len() - k,
    {
        r.push((targets[k], 1));
        k = k + 1;
    }
    r
}

/// The path that `pathfinding`'s A* finds with the moves of `step_targets` on a
/// map of the given size and blocked flags, if any.
pub uninterp spec fn astar_route(width: nat, height: nat, blocked: Seq<bool>, start: Point, end: Point) -> Option<Seq<Point>>;

/// Relies on `pathfinding::directed::astar::astar`: on a finite graph it returns
/// `Some((path, cost))` when a node accepted by `success` can be reached from
/// `start`, and `None` otherwise; `path` begins with `start`, ends with an accepted
/// node, each node in it is one of the successors of the one before, and no node
/// appears twice. `start` is tested first, so an accepted `start` gives the path
/// `[start]`. The search is deterministic: the moves offered depend on the size
/// and the blocked flags of the map alone.
#[verifier::external_body]
fn astar_path(map: &WorldMap, start: Point, end: Point) -> (r: Option<Vec<Point>>)
    requires
        map.wf(),
    ensures
        match r {
            Some(v) => astar_route(map.spec_width(), map.spec_height(), map.blocked_grid(), start, end) == Some(v@),
            None => astar_route(map.spec_width(), map.spec_height(), map.blocked_grid(), start, end) is None,
        },
        r is Some ==> is_search_path(*map, end, r->0@) && r->0@[0] == start && r->0@.last() == end,
        r is Some ==> r->0@.no_duplicates(),
        start == end ==> r is Some && r->0@ == seq![start],
        search_path_exists(*map, start, end) ==> r is Some,
{
    pathfinding::prelude::astar(
        &start,
        |p| successors(map, p, &end),
        |p| estimate(p, &end),
        |p| reached(p, &end),
    ).map(|found| found.0)
}

/// Computes a path from `start` to `end` with A*, if one exists. Each step costs
/// one; the heuristic is the rounded-down Euclidean distance; the moves offered
/// from a tile are its unblocked neighbours, sides first, except next to `end`,
/// where `end` is the only move, so that a path can end on a blocked goal.
///
/// The path holds both ends, no tile twice, and is the same on every call for
/// the same blocked flags and ends.
pub fn a_star_search(map: &WorldMap, start: Point, end: Point) -> (r: Option<Vec<Point>>)
    requires
        map.wf(),
    ensures
        match r {
            Some(v) => astar_route(map.spec_width(), map.spec_height(), map.blocked_grid(), start, end) == Some(v@),
            None => astar_route(map.spec_width(), map.spec_height(), map.blocked_grid(), start, end) is None,
        },
        r is Some ==> is_search_path(*map, end, r->0@) && r->0@[0] == start && r->0@.last() == end,
        r is Some ==> r->0@.no_duplicates(),
        start == end ==> r is Some && r->0@ == seq![start],
        r is Some <== search_path_exists(*map, start, end),
{
    astar_path(map, start, end)
}

proof fn lemma_exits_adjacent(m: WorldMap, p: Point, k: int, q: Point)
    requires
        m.exits_upto(p, k).contains(q),
        k <= 8,
    ensures
        adjacent(p, q),
    decreases k,
{
    if k > 0 {
        let prev = m.exits_upto(p, k - 1);
        if prev.contains(q) {
            lemma_exits_adjacent(m, p, k - 1, q);
        } else {
            let (dx, dy) = neighbour_delta(k - 1);
            assert(m.exits_upto(p, k) == prev.push(Point { x: (p.x + dx) as u32, y: (p.y + dy) as u32 }));
            assert(q == Point { x: (p.x + dx) as u32, y: (p.y + dy) as u32 });
        }
    }
}

proof fn lemma_exits_open(m: WorldMap, p: Point, k: int, q: Point)
    requires
        m.exits_upto(p, k).contains(q),
    ensures
        m.in_bounds(q),
        !m.tile(q).blocked,
    decreases k,
{
    if k > 0 {
        let prev = m.exits_upto(p, k - 1);
        if prev.contains(q) {
            lemma_exits_open(m, p, k - 1, q);
        } else {
            let (dx, dy) = neighbour_delta(k - 1);
            let n = Point { x: (p.x + dx) as u32, y: (p.y + dy) as u32 };
            if 0 <= p.x + dx <= u32::MAX && 0 <= p.y + dy <= u32::MAX && m.in_bounds(n) && !m.tile(n).blocked {
                assert(m.exits_upto(p, k) == prev.push(n));
                assert(q == n);
            } else {
                assert(m.exits_upto(p, k) == prev);
            }
        }
    }
}

/// Every tile strictly between the ends of a search path without repeats is on
/// the map and unblocked: only the goal itself may be blocked.
pub proof fn lemma_path_interior_open(m: WorldMap, end: Point, path: Seq<Point>)
    requires
        is_search_path(m, end, path),
        path.no_duplicates(),
        path.last() == end,
    ensures
        forall|k: int| 0 < k < path.len() - 1 ==> m.in_bounds(#[trigger] path[k]) && !m.tile(path[k]).blocked,
{
    assert forall|k: int| 0 < k < path.len() - 1 implies m.in_bounds(#[trigger] path[k]) && !m.tile(path[k]).blocked by {
        assert(step_targets(m, path[k - 1], end).contains(path[(k - 1) + 1]));
        assert(path[k] != path[path.len() - 1]);
        if distance(path[k - 1], end) == 1 {
            assert(seq![end][0] == end);
            assert(path[k] == end);
        } else {
            lemma_exits_open(m, path[k - 1], 8, path[k]);
        }
    }
}

proof fn lemma_unit_distance_adjacent(p: Point, q: Point)
    requires
        distance(p, q) == 1,
    ensures
        adjacent(p, q),
{
    let n = crate::geometry::dist_sq(p, q);
    crate::geometry::lemma_floor_sqrt(n);
    let r = crate::geometry::floor_sqrt(n);
    assert(r == 1);
    assert(r * r == 1 && (r + 1) * (r + 1) == 4) by (nonlinear_arith)
        requires
            r == 1,
    ;
    let dx = p.x - q.x;
    let dy = p.y - q.y;
    assert(dx * dx + dy * dy >= 0) by (nonlinear_arith);
    assert(n == dx * dx + dy * dy);
    assert(1 <= dx * dx + dy * dy < 4);
    assert(-1 <= dx <= 1 && -1 <= dy <= 1) by (nonlinear_arith)
        requires
            dx * dx + dy * dy < 4,
    ;
    assert(dx != 0 || dy != 0) by (nonlinear_arith)
        requires
            1 <= dx * dx + dy * dy,
    ;
}

/// Every move offered by the search is to a touching tile.
pub proof fn lemma_step_adjacent(m: WorldMap, p: Point, end: Point, q: Point)
    requires
        step_targets(m, p, end).contains(q),
    ensures
        adjacent(p, q),
{
    if distance(p, end) == 1 {
        assert(q == end);
        lemma_unit_distance_adjacent(p, end);
    } else {
        lemma_exits_adjacent(m, p, 8, q);
    }
}

proof fn lemma_king_step(p: Point, q: Point, b: Point)
    requires
        adjacent(p, q),
    ensures
        king_distance(p, b) <= king_distance(q, b) + 1,
{
}

/// The tiles of a search path touch one after the other, and the path holds at
/// least one more tile than the number of king moves between its ends.
pub proof fn lemma_search_path_shape(m: WorldMap, end: Point, path: Seq<Point>)
    requires
        is_search_path(m, end, path),
    ensures
        forall|k: int| 0 <= k < path.len() - 1 ==> #[trigger] adjacent(path[k], path[k + 1]),
        path.len() >= king_distance(path[0], path.last()) + 1,
    decreases path.len(),
{
    assert forall|k: int| 0 <= k < path.len() - 1 implies #[trigger] adjacent(path[k], path[k + 1]) by {
        assert(step_targets(m, path[k], end).contains(path[k + 1]));
        lemma_step_adjacent(m, path[k], end, path[k + 1]);
    }
    if path.len() > 1 {
        let rest = path.subrange(1, path.len() as int);
        assert forall|k: int| 0 <= k < rest.len() - 1 implies #[trigger] step_targets(m, rest[k], end).contains(rest[k + 1]) by {
            let j = k + 1;
            assert(step_targets(m, path[j], end).contains(path[j + 1]));
            assert(rest[k] == path[j] && rest[k + 1] == path[j + 1]);
        }
        lemma_search_path_shape(m, end, rest);
        assert(adjacent(path[0], path[1]));
        lemma_king_step(path[0], path[1], path.last());
        assert(rest.last() == path.last());
    } else {
        assert(king_distance(path[0], path[0]) == 0);
    }
}

/// A path returned by the search starts at `a`, ends at `b`, moves between
/// touching tiles, and holds at least as many tiles as the rounded-down Euclidean
/// distance between its ends, where that distance exceeds the number of king
/// moves between them by at most one.
pub proof fn lemma_found_path(m: WorldMap, a: Point, b: Point, path: Seq<Point>)
    requires
        is_search_path(m, b, path),
        path[0] == a,
        path.last() == b,
    ensures
        forall|k: int| 0 <= k < path.len() - 1 ==> #[trigger] adjacent(path[k], path[k + 1]),
        path.len() >= king_distance(a, b) + 1,
        distance(a, b) <= king_distance(a, b) + 1 ==> path.len() >= distance(a, b),
{
    lemma_search_path_shape(m, b, path);
}

/// Where some walk over unblocked tiles leads from `a` to a tile `t` next to `b`,
/// a search path from `a` to `b` exists, so the search returns one, blocked `b`
/// or not.
pub proof fn lemma_reach_next_to_goal(m: WorldMap, a: Point, t: Point, b: Point, walk: Seq<Point>)
    requires
        is_walk(m, walk),
        walk[0] == a,
        walk.last() == t,
        adjacent(t, b),
    ensures
        search_path_exists(m, a, b),
{
    lemma_adjacent_unit_distance(t, b);
    // The first tile of the walk at distance one from `b`.
    let j = first_next_to(walk, b, 0);
    let path = walk.subrange(0, j + 1).push(b);
    assert forall|k: int| 0 <= k < path.len() - 1 implies #[trigger] step_targets(m, path[k], b).contains(path[k + 1]) by {
        if k < j {
            assert(distance(walk[k], b) != 1);
            assert(m.exits(walk[k]).contains(walk[k + 1]));
            assert(path[k + 1] == walk[k + 1]);
        } else {
            assert(path[k] == walk[j]);
            assert(path[k + 1] == b);
            assert(step_targets(m, walk[j], b) == seq![b]);
            assert(seq![b][0] == b);
        }
    }
    assert(is_search_path(m, b, path));
    assert(path[0] == a);
}

/// The index of the first tile of `walk`, from `k` on, at distance one from `b`,
/// given that the last one is and none before `k` is.
proof fn first_next_to(walk: Seq<Point>, b: Point, k: int) -> (j: int)
    requires
        0 <= k < walk.len(),
        distance(walk.last(), b) == 1,
        forall|i: int| 0 <= i < k ==> distance(#[trigger] walk[i], b) != 1,
    ensures
        k <= j < walk.len(),
        distance(walk[j], b) == 1,
        forall|i: int| 0 <= i < j ==> distance(#[trigger] walk[i], b) != 1,
    decreases walk.len() - k,
{
    if distance(walk[k], b) == 1 {
        k
    } else {
        first_next_to(walk, b, k + 1)
    }
}

proof fn lemma_adjacent_unit_distance(p: Point, q: Point)
    requires
        adjacent(p, q),
    ensures
        distance(p, q) == 1,
{
    let n = crate::geometry::dist_sq(p, q);
    let dx = p.x - q.x;
    let dy = p.y - q.y;
    assert(-1 <= dx <= 1 && -1 <= dy <= 1);
    assert(dx != 0 || dy != 0);
    assert(dx * dx >= 0 && dy * dy >= 0) by (nonlinear_arith);
    assert(n == dx * dx + dy * dy);
    assert(1 <= dx * dx + dy * dy <= 2) by (nonlinear_arith)
        requires
            -1 <= dx <= 1,
            -1 <= dy <= 1,
            dx != 0 || dy != 0,
    ;
    assert(1 * 1 <= n && n < (1 + 1) * (1 + 1));
    crate::geometry::lemma_floor_sqrt_unique(n, 1);
}

} // verus!
