use vstd::prelude::*;

use crate::map::{lemma_cell_index_bound, lemma_cell_index_injective, Grid};
use crate::shared::{Point, Tile};

verus! {

/// A single move of the token: one cell down, right, left or up, where
/// left and up are only offered while they keep both coordinates
/// non-negative.
pub open spec fn unit_step(a: Point, b: Point) -> bool {
    ||| (b.x == a.x && b.y == a.y + 1)
    ||| (b.x == a.x + 1 && b.y == a.y)
    ||| (a.x > 0 && b.x == a.x - 1 && b.y == a.y)
    ||| (a.y > 0 && b.x == a.x && b.y == a.y - 1)
}

/// The candidate steps adjacency considers, in the order they are
/// offered: down, right, left, up.
pub open spec fn candidate_seq(p: Point) -> Seq<Point> {
    let down: Seq<Point> = if p.y < usize::MAX {
        seq![Point { x: p.x, y: (p.y + 1) as usize }]
    } else {
        Seq::empty()
    };
    let right: Seq<Point> = if p.x < usize::MAX {
        seq![Point { x: (p.x + 1) as usize, y: p.y }]
    } else {
        Seq::empty()
    };
    let left: Seq<Point> = if p.x > 0 {
        seq![Point { x: (p.x - 1) as usize, y: p.y }]
    } else {
        Seq::empty()
    };
    let up: Seq<Point> = if p.y > 0 {
        seq![Point { x: p.x, y: (p.y - 1) as usize }]
    } else {
        Seq::empty()
    };
    down + right + left + up
}

/// The candidates of a point are exactly its unit steps.
pub proof fn lemma_candidate_unit(p: Point)
    ensures
        forall|q: Point| candidate_seq(p).contains(q) <==> unit_step(p, q),
{
    let s = candidate_seq(p);
    assert forall|q: Point| s.contains(q) implies unit_step(p, q) by {
        let i = choose|i: int| 0 <= i < s.len() && s[i] == q;
        assert(unit_step(p, s[i]));
    }
    assert forall|q: Point| unit_step(p, q) implies s.contains(q) by {
        let d: int = if p.y < usize::MAX {
            1
        } else {
            0
        };
        let r: int = if p.x < usize::MAX {
            1
        } else {
            0
        };
        let l: int = if p.x > 0 {
            1
        } else {
            0
        };
        if q.x == p.x && q.y == p.y + 1 {
            assert(s[0] == q);
        } else if q.x == p.x + 1 && q.y == p.y {
            assert(s[d] == q);
        } else if p.x > 0 && q.x == p.x - 1 && q.y == p.y {
            assert(s[d + r] == q);
        } else {
            assert(s[d + r + l] == q);
        }
    }
}

/// The candidates that survive the `Wall` filter, in candidate order.
pub open spec fn non_wall_filter(g: Grid, s: Seq<Point>) -> Seq<Point>
    decreases s.len(),
{
    if s.len() == 0 {
        Seq::empty()
    } else {
        non_wall_filter(g, s.drop_last()) + if g.tile_at(s.last()) != Tile::Wall {
            seq![s.last()]
        } else {
            Seq::empty()
        }
    }
}

/// What adjacency yields: the non-`Wall` candidates of a point.
pub open spec fn adjacent_spec(g: Grid, p: Point) -> Seq<Point> {
    non_wall_filter(g, candidate_seq(p))
}

/// The `Wall` filter keeps exactly the non-`Wall` members, in order.
pub proof fn lemma_non_wall_filter(g: Grid, s: Seq<Point>)
    ensures
        non_wall_filter(g, s).len() <= s.len(),
        forall|i: int|
            0 <= i < non_wall_filter(g, s).len() ==> s.contains(
                #[trigger] non_wall_filter(g, s)[i],
            ) && g.tile_at(non_wall_filter(g, s)[i]) != Tile::Wall,
        forall|q: Point|
            s.contains(q) && g.tile_at(q) != Tile::Wall ==> non_wall_filter(g, s).contains(q),
    decreases s.len(),
{
    let f = non_wall_filter(g, s);
    if s.len() > 0 {
        lemma_non_wall_filter(g, s.drop_last());
        let f0 = non_wall_filter(g, s.drop_last());
        assert forall|i: int|
            0 <= i < f.len() implies s.contains(#[trigger] f[i]) && g.tile_at(f[i])
            != Tile::Wall by {
            if i < f0.len() {
                assert(f[i] == f0[i]);
                assert(s.drop_last().contains(f0[i]));
                let w = choose|w: int| 0 <= w < s.drop_last().len() && s.drop_last()[w] == f0[i];
                assert(s[w] == f0[i]);
            } else {
                assert(f[i] == s.last());
                assert(s[s.len() - 1] == s.last());
            }
        }
        assert forall|q: Point|
            s.contains(q) && g.tile_at(q) != Tile::Wall implies f.contains(q) by {
            let w = choose|w: int| 0 <= w < s.len() && s[w] == q;
            if w < s.len() - 1 {
                assert(s.drop_last()[w] == q);
                assert(s.drop_last().contains(q));
                assert(f0.contains(q));
                let v = choose|v: int| 0 <= v < f0.len() && f0[v] == q;
                assert(f[v] == q);
            } else {
                assert(q == s.last());
                assert(f[f0.len() as int] == q);
            }
        }
    }
}

/// Adjacency never leaves the non-negative quadrant and never offers a
/// `Wall`; an interior cell gets all four candidate steps, a cell on a
/// zero boundary fewer.
pub proof fn lemma_adjacent_properties(g: Grid, p: Point)
    ensures
        forall|i: int|
            0 <= i < adjacent_spec(g, p).len() ==> g.tile_at(#[trigger] adjacent_spec(g, p)[i])
                != Tile::Wall,
        forall|i: int|
            0 <= i < adjacent_spec(g, p).len() ==> unit_step(p, #[trigger] adjacent_spec(g, p)[i]),
        adjacent_spec(g, p).len() <= candidate_seq(p).len(),
        0 < p.x && 0 < p.y && p.x < usize::MAX && p.y < usize::MAX ==> candidate_seq(p).len() == 4,
        p.x == 0 || p.y == 0 ==> candidate_seq(p).len() < 4,
{
    lemma_candidate_unit(p);
    lemma_non_wall_filter(g, candidate_seq(p));
}

/// One backward link of a route: `b` was entered from `a`, so the two
/// are one unit step apart and `b` is free to walk on.
pub open spec fn step_ok(g: Grid, a: Point, b: Point) -> bool {
    unit_step(a, b) && g.tile_at(b) == Tile::Empty
}

/// A well-formed, goal-first route out of `start`: either the
/// degenerate route that stands still, or a non-empty chain whose cells
/// are all `Empty`, whose consecutive entries step backward toward the
/// start, whose last entry is one step from `start`, and which — as a
/// list of cells still to be walked — excludes the start itself and
/// never revisits a cell.
pub open spec fn route_ok(g: Grid, start: Point, r: Seq<Point>) -> bool {
    r.len() > 0 && (r == seq![start] || ((forall|i: int|
        0 <= i < r.len() ==> g.tile_at(#[trigger] r[i]) == Tile::Empty) && (forall|i: int|
        0 <= i < r.len() - 1 ==> step_ok(g, r[i + 1], #[trigger] r[i])) && step_ok(
        g,
        start,
        r[r.len() - 1],
    ) && !r.contains(start) && (forall|i: int, j: int|
        0 <= i < j < r.len() ==> r[i] != r[j])))
}

/// Whether the grid admits any route from `start` to `goal`.
pub open spec fn has_route(g: Grid, start: Point, goal: Point) -> bool {
    goal == start || exists|r: Seq<Point>| route_ok(g, start, r) && r[0] == goal
}

/// A route that moves never crosses a `Wall`, an occupied cell (`NPC`,
/// `Current`), a `Warp` or undeclared ground: every cell it enters is
/// exactly `Empty`. The one exclusion is the degenerate standing-still
/// route, which sits on whatever tile the walker already occupies.
pub proof fn lemma_route_avoids_occupied(g: Grid, start: Point, r: Seq<Point>)
    requires
        route_ok(g, start, r),
        r != seq![start],
    ensures
        forall|i: int| 0 <= i < r.len() ==> g.tile_at(#[trigger] r[i]) == Tile::Empty,
        forall|i: int|
            0 <= i < r.len() ==> g.tile_at(#[trigger] r[i]) != Tile::NPC && g.tile_at(r[i])
                != Tile::Current && g.tile_at(r[i]) != Tile::Wall,
{
}

/// Clearing obstacles never destroys a route: on a grid where every
/// cell free before is still free — say an `NPC` or `Current` cell
/// was vacated — every goal that was reachable stays reachable.
pub proof fn lemma_opening_cells_preserves_routes(g1: Grid, g2: Grid, start: Point, goal: Point)
    requires
        forall|p: Point| g1.tile_at(p) == Tile::Empty ==> #[trigger] g2.tile_at(p) == Tile::Empty,
        has_route(g1, start, goal),
    ensures
        has_route(g2, start, goal),
{
    if goal != start {
        let r = choose|r: Seq<Point>| route_ok(g1, start, r) && r[0] == goal;
        if r == seq![start] {
            assert(r[0] == start);
        } else {
            assert forall|i: int| 0 <= i < r.len() implies g2.tile_at(#[trigger] r[i])
                == Tile::Empty by {
                assert(g1.tile_at(r[i]) == Tile::Empty);
            }
            assert forall|i: int|
                0 <= i < r.len() - 1 implies step_ok(g2, r[i + 1], #[trigger] r[i]) by {
                assert(step_ok(g1, r[i + 1], r[i]));
            }
            assert(step_ok(g1, start, r[r.len() - 1]));
            assert(route_ok(g2, start, r) && r[0] == goal);
        }
    }
}

/// Whether the search has generated a point: the start always counts,
/// any other point once its cell holds a predecessor link.
pub open spec fn generated(g: Grid, cf: Seq<Option<Point>>, start: Point, p: Point) -> bool {
    p == start || (g.in_bounds(p) && cf[p.y * g.spec_max_x() + p.x] is Some)
}

/// How many cells still lack a predecessor link.
pub open spec fn num_none(s: Seq<Option<Point>>) -> nat
    decreases s.len(),
{
    if s.len() == 0 {
        0
    } else {
        num_none(s.drop_last()) + if s.last() is None {
            1nat
        } else {
            0nat
        }
    }
}

/// Filling one empty predecessor cell lowers the count by one.
pub proof fn lemma_num_none_update(s: Seq<Option<Point>>, i: int, v: Point)
    requires
        0 <= i < s.len(),
        s[i] is None,
    ensures
        num_none(s.update(i, Some(v))) == num_none(s) - 1,
    decreases s.len(),
{
    let t = s.update(i, Some(v));
    if i == s.len() - 1 {
        assert(t.drop_last() =~= s.drop_last());
    } else {
        assert(t.drop_last() =~= s.drop_last().update(i, Some(v)));
        assert(t.last() == s.last());
        lemma_num_none_update(s.drop_last(), i, v);
    }
}

/// Whether some frontier entry carries the point.
pub open spec fn open_contains(s: Seq<(u128, Point)>, p: Point) -> bool {
    exists|k: int| 0 <= k < s.len() && s[k].1 == p
}

/// Appending a frontier entry keeps every point and adds the new one.
proof fn lemma_open_push(s: Seq<(u128, Point)>, pr: (u128, Point))
    ensures
        forall|p: Point| open_contains(s, p) ==> open_contains(s.push(pr), p),
        open_contains(s.push(pr), pr.1),
        forall|k: int|
            0 <= k < s.push(pr).len() ==> (#[trigger] s.push(pr)[k]).1 == pr.1 || open_contains(
                s,
                s.push(pr)[k].1,
            ),
{
    assert forall|p: Point| open_contains(s, p) implies open_contains(s.push(pr), p) by {
        let w = choose|w: int| 0 <= w < s.len() && s[w].1 == p;
        assert(s.push(pr)[w] == s[w]);
    }
    assert(s.push(pr)[s.len() as int] == pr);
    assert forall|k: int|
        0 <= k < s.push(pr).len() implies (#[trigger] s.push(pr)[k]).1 == pr.1 || open_contains(
        s,
        s.push(pr)[k].1,
    ) by {
        if k < s.len() {
            assert(s[k].1 == s.push(pr)[k].1);
        }
    }
}

/// The greatest integer whose square does not exceed the argument.
pub open spec fn is_isqrt(n: int, r: int) -> bool {
    0 <= r && r * r <= n && n < (r + 1) * (r + 1)
}

/// Squaring keeps order on non-negative integers.
proof fn lemma_sq_le(a: int, b: int)
    by (nonlinear_arith)
    requires
        0 <= a <= b,
    ensures
        a * a <= b * b,
{
}

/// Computes the integer square root by bisection.
fn isqrt(n: u128) -> (r: u128)
    ensures
        is_isqrt(n as int, r as int),
{
    let mut lo: u128 = 0;
    let mut hi: u128 = 0xFFFF_FFFF_FFFF_FFFF;
    while lo < hi
        invariant
            lo <= hi <= 0xFFFF_FFFF_FFFF_FFFF,
            (lo as int) * (lo as int) <= n as int,
            (n as int) < (hi as int + 1) * (hi as int + 1),
        decreases hi - lo,
    {
        let mid = lo + (hi - lo + 1) / 2;
        proof {
            lemma_sq_le(mid as int, 0xFFFF_FFFF_FFFF_FFFF);
        }
        if mid * mid <= n {
            lo = mid;
        } else {
            hi = mid - 1;
        }
    }
    lo
}

/// The straight-line cost the frontier orders by: the integer part of
/// the Euclidean distance between two points, saturated at the widest
/// machine square.
fn dist_cost(a: &Point, b: &Point) -> (r: u128)
{
    let dx: u128 = if a.x >= b.x {
        (a.x - b.x) as u128
    } else {
        (b.x - a.x) as u128
    };
    let dy: u128 = if a.y >= b.y {
        (a.y - b.y) as u128
    } else {
        (b.y - a.y) as u128
    };
    proof {
        lemma_sq_le(dx as int, 0xFFFF_FFFF_FFFF_FFFF);
        lemma_sq_le(dy as int, 0xFFFF_FFFF_FFFF_FFFF);
    }
    let sx = dx * dx;
    let sy = dy * dy;
    let sum = if sx <= u128::MAX - sy {
        sx + sy
    } else {
        u128::MAX
    };
    isqrt(sum)
}

/// Offers the up-to-four neighbors of a point, in the order down,
/// right, left, up, leaving out any that sits on a `Wall`.
#[verifier::loop_isolation(false)]
#[verifier::rlimit(30)]
pub fn adjacent(map: &Grid, point: &Point) -> (r: Vec<Point>)
    requires
        map.wf(),
    ensures
        r@ == adjacent_spec(*map, *point),
{
    let mut cands: Vec<Point> = Vec::new();
    if point.y < usize::MAX {
        cands.push(Point { x: point.x, y: point.y + 1 });
    }
    if point.x < usize::MAX {
        cands.push(Point { x: point.x + 1, y: point.y });
    }
    if point.x > 0 {
        cands.push(Point { x: point.x - 1, y: point.y });
    }
    if point.y > 0 {
        cands.push(Point { x: point.x, y: point.y - 1 });
    }
    proof {
        assert(cands@ =~= candidate_seq(*point));
    }
    let mut r: Vec<Point> = Vec::new();
    let mut i: usize = 0;
    while i < cands.len()
        invariant
            i <= cands@.len(),
            r@ == non_wall_filter(*map, cands@.take(i as int)),
        decreases cands@.len() - i,
    {
        proof {
            assert(cands@.take(i + 1).drop_last() =~= cands@.take(i as int));
            assert(cands@.take(i + 1).last() == cands@[i as int]);
        }
        let c = cands[i];
        if map.get(&c) != Tile::Wall {
            r.push(c);
        }
        i = i + 1;
    }
    proof {
        assert(cands@.take(cands@.len() as int) =~= cands@);
    }
    r
}

/// Decides whether the search has generated a point.
fn is_generated(map: &Grid, cf: &Vec<Option<Point>>, start: &Point, p: &Point) -> (r: bool)
    requires
        map.wf(),
        cf@.len() == map.spec_cells(),
    ensures
        r == generated(*map, cf@, *start, *p),
{
    if p.x == start.x && p.y == start.y {
        true
    } else if p.x < map.width() && p.y < map.height() {
        proof {
            map.lemma_cells_bound();
            lemma_cell_index_bound(
                p.x as int,
                p.y as int,
                map.spec_max_x() as int,
                map.spec_max_y() as int,
            );
        }
        cf[p.y * map.width() + p.x].is_some()
    } else {
        false
    }
}

/// A valid route whose cells the search has all processed ends on a
/// generated point; walked from the start, it shows that a closed,
/// fully processed search has generated every reachable goal.
proof fn lemma_route_generated(
    g: Grid,
    cf: Seq<Option<Point>>,
    start: Point,
    processed: Set<Point>,
    r: Seq<Point>,
    i: int,
)
    requires
        0 <= i < r.len(),
        forall|j: int| 0 <= j < r.len() ==> g.tile_at(#[trigger] r[j]) == Tile::Empty,
        forall|j: int| 0 <= j < r.len() - 1 ==> step_ok(g, r[j + 1], #[trigger] r[j]),
        step_ok(g, start, r[r.len() - 1]),
        forall|p: Point| generated(g, cf, start, p) ==> processed.contains(p),
        forall|p: Point, q: Point|
            processed.contains(p) && #[trigger] step_ok(g, p, q) ==> generated(g, cf, start, q),
    ensures
        generated(g, cf, start, r[i]),
    decreases r.len() - i,
{
    if i == r.len() - 1 {
        assert(generated(g, cf, start, start));
        assert(processed.contains(start));
    } else {
        lemma_route_generated(g, cf, start, processed, r, i + 1);
        assert(processed.contains(r[i + 1]));
    }
}

/// Removes and hands back the frontier entry the search pops next: the
/// lowest assigned cost, ties broken toward the row-major greater point.
#[verifier::loop_isolation(false)]
fn pop_best(open_list: &mut Vec<(u128, Point)>) -> (r: (u128, Point))
    requires
        old(open_list)@.len() > 0,
    ensures
        open_contains(old(open_list)@, r.1),
        final(open_list)@.len() == old(open_list)@.len() - 1,
        forall|p: Point|
            open_contains(old(open_list)@, p) && p != r.1 ==> open_contains(
                final(open_list)@,
                p,
            ),
        forall|k: int|
            0 <= k < final(open_list)@.len() ==> open_contains(
                old(open_list)@,
                (#[trigger] final(open_list)@[k]).1,
            ),
{
    let mut best: usize = 0;
    let mut k: usize = 1;
    while k < open_list.len()
        invariant
            best < open_list@.len(),
            1 <= k <= open_list@.len(),
        decreases open_list@.len() - k,
    {
        let (ck, pk) = open_list[k];
        let (cb, pb) = open_list[best];
        if ck < cb || (ck == cb && pb.before(&pk)) {
            best = k;
        }
        k = k + 1;
    }
    let ghost open_pre = open_list@;
    let chosen = open_list.swap_remove(best);
    proof {
        assert(open_contains(open_pre, chosen.1)) by {
            assert(open_pre[best as int].1 == chosen.1);
        }
        assert forall|p: Point|
            open_contains(open_pre, p) && p != chosen.1 implies open_contains(
            open_list@,
            p,
        ) by {
            let w = choose|w: int| 0 <= w < open_pre.len() && open_pre[w].1 == p;
            if w == open_pre.len() - 1 {
                assert(open_list@[best as int].1 == p);
            } else if w != best {
                assert(open_list@[w].1 == p);
            }
        }
        assert forall|k2: int|
            0 <= k2 < open_list@.len() implies open_contains(
            open_pre,
            (#[trigger] open_list@[k2]).1,
        ) by {
            if k2 == best {
                assert(open_pre[open_pre.len() - 1].1 == open_list@[k2].1);
            } else {
                assert(open_pre[k2].1 == open_list@[k2].1);
            }
        }
    }
    chosen
}

/// Computes a collision-aware route from `start` to `goal` on a grid
/// snapshot: a greedy relaxation search whose frontier is ordered by
/// ascending straight-line distance to the goal (ties broken by
/// row-major point order), generating only cells that are exactly
/// `Empty`. The result is goal-first — its front is the goal, its back
/// the step nearest the start — and empty exactly when the grid admits
/// no route.
#[verifier::rlimit(100)]
pub fn find_path(map: &Grid, start: Point, goal: Point) -> (r: Vec<Point>)
    requires
        map.wf(),
    ensures
        r@.len() > 0 ==> route_ok(*map, start, r@) && r@[0] == goal,
        r@.len() > 0 <==> has_route(*map, start, goal),
        goal == start ==> r@ == seq![start],
{
    if goal.x == start.x && goal.y == start.y {
        let mut v: Vec<Point> = Vec::new();
        v.push(start);
        proof {
            assert(v@ =~= seq![start]);
        }
        return v;
    }

    let cells = map.cell_count();
    let mut came_from: Vec<Option<Point>> = Vec::new();
    while came_from.len() < cells
        invariant
            came_from@.len() <= cells,
            forall|j: int| 0 <= j < came_from@.len() ==> came_from@[j] is None,
        decreases cells - came_from@.len(),
    {
        came_from.push(None);
    }

    let mut open_list: Vec<(u128, Point)> = Vec::new();
    open_list.push((0, start));

    let ghost mut depth: Map<Point, nat> = Map::empty().insert(start, 0);
    let ghost mut processed: Set<Point> = Set::empty();
    let mut found: bool = false;

    proof {
        map.lemma_cells_bound();
        assert(open_contains(open_list@, start)) by {
            assert(open_list@[0].1 == start);
        }
        assert forall|p: Point|
            map.in_bounds(p) && came_from@[p.y * map.spec_max_x() + p.x] is Some implies false by {
            lemma_cell_index_bound(
                p.x as int,
                p.y as int,
                map.spec_max_x() as int,
                map.spec_max_y() as int,
            );
        }
    }

    while !found && open_list.len() > 0
        invariant
            map.wf(),
            came_from@.len() == map.spec_cells(),
            depth.dom().contains(start),
            // every predecessor link records a legal entry step
            forall|p: Point|
                map.in_bounds(p) && (#[trigger] came_from@[p.y * map.spec_max_x() + p.x])
                    is Some ==> {
                    let q = came_from@[p.y * map.spec_max_x() + p.x]->0;
                    &&& p != start
                    &&& step_ok(*map, q, p)
                    &&& generated(*map, came_from@, start, q)
                    &&& depth.dom().contains(p)
                    &&& depth.dom().contains(q)
                    &&& depth[q] < depth[p]
                },
            // the frontier holds only generated points
            forall|k: int|
                0 <= k < open_list@.len() ==> generated(
                    *map,
                    came_from@,
                    start,
                    (#[trigger] open_list@[k]).1,
                ),
            // while the search runs, a generated point is processed or
            // still on the frontier
            !found ==> forall|p: Point|
                #[trigger] generated(*map, came_from@, start, p) ==> processed.contains(p)
                    || open_contains(open_list@, p),
            // a processed point has had all its legal steps generated
            forall|p: Point, q: Point|
                processed.contains(p) && #[trigger] step_ok(*map, p, q) ==> generated(
                    *map,
                    came_from@,
                    start,
                    q,
                ),
            found ==> generated(*map, came_from@, start, goal),
        decreases num_none(came_from@), open_list@.len(),
    {
        let ghost open_pre = open_list@;
        let chosen = pop_best(&mut open_list);
        proof {
            assert forall|k2: int|
                0 <= k2 < open_list@.len() implies generated(
                *map,
                came_from@,
                start,
                (#[trigger] open_list@[k2]).1,
            ) by {
                let w = choose|w: int| 0 <= w < open_pre.len() && open_pre[w].1
                    == open_list@[k2].1;
            }
            assert(generated(*map, came_from@, start, chosen.1));
        }

        if chosen.1.x == goal.x && chosen.1.y == goal.y {
            found = true;
        } else {
            let adj = adjacent(map, &chosen.1);
            proof {
                lemma_adjacent_properties(*map, chosen.1);
                lemma_candidate_unit(chosen.1);
                lemma_non_wall_filter(*map, candidate_seq(chosen.1));
            }
            let ghost cf0 = came_from@;
            let ghost open0 = open_list@;
            let mut j: usize = 0;
            while j < adj.len()
                invariant
                    map.wf(),
                    adj@ == adjacent_spec(*map, chosen.1),
                    j <= adj@.len(),
                    came_from@.len() == map.spec_cells(),
                    depth.dom().contains(start),
                    forall|p: Point|
                        map.in_bounds(p) && (#[trigger] came_from@[p.y * map.spec_max_x() + p.x])
                            is Some ==> {
                            let q = came_from@[p.y * map.spec_max_x() + p.x]->0;
                            &&& p != start
                            &&& step_ok(*map, q, p)
                            &&& generated(*map, came_from@, start, q)
                            &&& depth.dom().contains(p)
                            &&& depth.dom().contains(q)
                            &&& depth[q] < depth[p]
                        },
                    forall|k2: int|
                        0 <= k2 < open_list@.len() ==> generated(
                            *map,
                            came_from@,
                            start,
                            (#[trigger] open_list@[k2]).1,
                        ),
                    forall|p: Point|
                        #[trigger] generated(*map, came_from@, start, p) ==> processed.contains(p)
                            || open_contains(open_list@, p) || p == chosen.1,
                    forall|p: Point, q: Point|
                        processed.contains(p) && #[trigger] step_ok(*map, p, q) ==> generated(
                            *map,
                            came_from@,
                            start,
                            q,
                        ),
                    // cells already scanned have their legal steps generated
                    forall|jj: int|
                        0 <= jj < j && map.tile_at(#[trigger] adj@[jj]) == Tile::Empty
                            ==> generated(*map, came_from@, start, adj@[jj]),
                    // generated points only accumulate
                    forall|p: Point|
                        generated(*map, cf0, start, p) ==> generated(*map, came_from@, start, p),
                    generated(*map, came_from@, start, chosen.1),
                    num_none(came_from@) + open_list@.len() == num_none(cf0) + open0.len(),
                    num_none(came_from@) <= num_none(cf0),
                decreases adj@.len() - j,
            {
                let e = adj[j];
                let ghost cf_it = came_from@;
                let ghost open_it = open_list@;
                proof {
                    lemma_adjacent_properties(*map, chosen.1);
                }
                let gen = is_generated(map, &came_from, &start, &e);
                let t = map.get(&e);
                if !gen && t == Tile::Empty {
                    let c = dist_cost(&goal, &e);
                    proof {
                        map.lemma_outside_unknown(e);
                        map.lemma_cells_bound();
                        lemma_cell_index_bound(
                            e.x as int,
                            e.y as int,
                            map.spec_max_x() as int,
                            map.spec_max_y() as int,
                        );
                    }
                    came_from.set(e.y * map.width() + e.x, Some(chosen.1));
                    proof {
                        depth = depth.insert(e, (depth[chosen.1] + 1) as nat);
                        lemma_num_none_update(
                            cf_it,
                            e.y * map.spec_max_x() + e.x,
                            chosen.1,
                        );
                        // the new link is the only changed cell
                        assert forall|p: Point|
                            map.in_bounds(p) && p != e implies came_from@[p.y * map.spec_max_x()
                            + p.x] == cf_it[p.y * map.spec_max_x() + p.x] by {
                            lemma_cell_index_bound(
                                p.x as int,
                                p.y as int,
                                map.spec_max_x() as int,
                                map.spec_max_y() as int,
                            );
                            if p.y * map.spec_max_x() + p.x == e.y * map.spec_max_x() + e.x {
                                lemma_cell_index_injective(
                                    p.x as int,
                                    p.y as int,
                                    e.x as int,
                                    e.y as int,
                                    map.spec_max_x() as int,
                                );
                            }
                        }
                        assert(unit_step(chosen.1, e)) by {
                            assert(adjacent_spec(*map, chosen.1)[j as int] == e);
                        }
                        assert(step_ok(*map, chosen.1, e));
                        assert(generated(*map, came_from@, start, e));
                        assert forall|p: Point|
                            generated(*map, came_from@, start, p) && p != e implies generated(
                            *map,
                            cf_it,
                            start,
                            p,
                        ) by {}
                    }
                    open_list.push((c, e));
                    proof {
                        lemma_open_push(open_it, (c, e));
                        assert(open_list@ == open_it.push((c, e)));
                        // the frontier still holds only generated points
                        assert forall|k2: int|
                            0 <= k2 < open_list@.len() implies generated(
                            *map,
                            came_from@,
                            start,
                            (#[trigger] open_list@[k2]).1,
                        ) by {
                            if open_list@[k2].1 != e {
                                let w = choose|w: int|
                                    0 <= w < open_it.len() && open_it[w].1 == open_list@[k2].1;
                            }
                        }
                        // the partition keeps every generated point accounted for
                        assert forall|p: Point|
                            #[trigger] generated(*map, came_from@, start, p)
                            implies processed.contains(p) || open_contains(open_list@, p) || p
                            == chosen.1 by {
                            if p == e {
                                assert(open_contains(open_list@, p));
                            } else {
                                assert(generated(*map, cf_it, start, p));
                            }
                        }
                    }
                }
                j = j + 1;
            }
            proof {
                processed = processed.insert(chosen.1);
                assert forall|p: Point, q: Point|
                    processed.contains(p) && #[trigger] step_ok(*map, p, q) implies generated(
                    *map,
                    came_from@,
                    start,
                    q,
                ) by {
                    if p == chosen.1 {
                        assert(candidate_seq(chosen.1).contains(q));
                        assert(adjacent_spec(*map, chosen.1).contains(q));
                        let w = choose|w: int| 0 <= w < adj@.len() && adj@[w] == q;
                        assert(map.tile_at(adj@[w]) == Tile::Empty);
                    }
                }
            }
        }
    }

    proof {
        if !found {
            assert(open_list@.len() == 0);
            if has_route(*map, start, goal) {
                let r = choose|r: Seq<Point>| route_ok(*map, start, r) && r[0] == goal;
                assert(r != seq![start]);
                assert forall|p: Point|
                    generated(*map, came_from@, start, p) implies processed.contains(p) by {
                    assert(!open_contains(open_list@, p));
                }
                lemma_route_generated(*map, came_from@, start, processed, r, 0);
            }
        }
    }

    // walk the predecessor links backward from the goal
    if !(goal.x < map.width() && goal.y < map.height()) {
        return Vec::new();
    }
    proof {
        map.lemma_cells_bound();
        lemma_cell_index_bound(
            goal.x as int,
            goal.y as int,
            map.spec_max_x() as int,
            map.spec_max_y() as int,
        );
    }
    if came_from[goal.y * map.width() + goal.x].is_none() {
        proof {
            assert(!generated(*map, came_from@, start, goal));
        }
        return Vec::new();
    }

    let mut path: Vec<Point> = Vec::new();
    path.push(goal);
    let mut cur = goal;
    loop
        invariant
            goal != start,
            map.wf(),
            came_from@.len() == map.spec_cells(),
            forall|p: Point|
                map.in_bounds(p) && (#[trigger] came_from@[p.y * map.spec_max_x() + p.x])
                    is Some ==> {
                    let q = came_from@[p.y * map.spec_max_x() + p.x]->0;
                    &&& p != start
                    &&& step_ok(*map, q, p)
                    &&& generated(*map, came_from@, start, q)
                    &&& depth.dom().contains(p)
                    &&& depth.dom().contains(q)
                    &&& depth[q] < depth[p]
                },
            generated(*map, came_from@, start, cur),
            cur != start,
            path@.len() >= 1,
            path@[0] == goal,
            path@[path@.len() - 1] == cur,
            forall|i: int| 0 <= i < path@.len() ==> map.tile_at(#[trigger] path@[i]) == Tile::Empty,
            forall|i: int| 0 <= i < path@.len() - 1 ==> step_ok(*map, path@[i + 1], #[trigger] path@[i]),
            depth.dom().contains(cur),
            forall|i: int| 0 <= i < path@.len() ==> #[trigger] path@[i] != start,
            forall|i: int| 0 <= i < path@.len() ==> depth.dom().contains(#[trigger] path@[i]),
            forall|i: int|
                0 <= i < path@.len() - 1 ==> depth[cur] < depth[#[trigger] path@[i]],
            forall|i: int, j: int| 0 <= i < j < path@.len() ==> path@[i] != path@[j],
        decreases depth[cur],
    {
        proof {
            map.lemma_cells_bound();
            lemma_cell_index_bound(
                cur.x as int,
                cur.y as int,
                map.spec_max_x() as int,
                map.spec_max_y() as int,
            );
        }
        let pred = match came_from[cur.y * map.width() + cur.x] {
            Some(q) => q,
            None => {
                proof {
                    assert(false);
                }
                start
            },
        };
        if pred.x == start.x && pred.y == start.y {
            proof {
                assert(!path@.contains(start)) by {
                    if path@.contains(start) {
                        let i = choose|i: int| 0 <= i < path@.len() && path@[i] == start;
                    }
                }
                assert(route_ok(*map, start, path@));
                assert(has_route(*map, start, goal));
            }
            return path;
        }
        path.push(pred);
        cur = pred;
    }
}

/// Whether the list of already-visited points holds the given one.
#[verifier::loop_isolation(false)]
fn contains_point(v: &Vec<Point>, p: &Point) -> (r: bool)
    ensures
        r == v@.contains(*p),
{
    let mut i: usize = 0;
    while i < v.len()
        invariant
            i <= v@.len(),
            forall|j: int| 0 <= j < i ==> v@[j] != *p,
        decreases v@.len() - i,
    {
        if v[i].x == p.x && v[i].y == p.y {
            assert(v@[i as int] == *p);
            return true;
        }
        i = i + 1;
    }
    false
}

/// The Chebyshev distance between two points: the larger of the two
/// coordinate gaps, the radius of the smallest square ring around one
/// point that touches the other.
pub open spec fn cheb_dist(a: Point, b: Point) -> int {
    let dx: int = if a.x >= b.x {
        a.x - b.x
    } else {
        b.x - a.x
    };
    let dy: int = if a.y >= b.y {
        a.y - b.y
    } else {
        b.y - a.y
    };
    if dx >= dy {
        dx
    } else {
        dy
    }
}

/// A cell worth wandering to: open or unexplored ground not yet
/// visited.
pub open spec fn open_candidate(g: Grid, visited: Seq<Point>, q: Point) -> bool {
    (g.tile_at(q) == Tile::Empty || g.tile_at(q) == Tile::Unknown) && !visited.contains(q)
}

/// How far out the ring search is willing to look: the larger grid
/// dimension.
pub open spec fn spec_search_limit(g: Grid) -> int {
    if g.spec_max_x() >= g.spec_max_y() {
        g.spec_max_x() as int
    } else {
        g.spec_max_y() as int
    }
}

/// Finds the nearest open ground to wander to: expands Chebyshev rings
/// outward from `position`, stops at the first ring holding a cell that
/// reads `Empty` or `Unknown` and is not already visited, and among
/// that ring's cells keeps the candidate whose computed route is the
/// shortest. Yields nothing when no candidate of that ring is
/// reachable, or no ring up to the grid size offers a candidate.
#[verifier::loop_isolation(false)]
#[verifier::rlimit(60)]
pub fn best_match(map: &Grid, position: Point, visited: &Vec<Point>) -> (r: Option<
    (Point, Vec<Point>),
>)
    requires
        map.wf(),
    ensures
        match r {
            Some(m) => {
                &&& !visited@.contains(m.0)
                &&& (map.tile_at(m.0) == Tile::Empty || map.tile_at(m.0) == Tile::Unknown)
                &&& m.1@.len() > 0
                &&& m.1@[0] == m.0
                &&& route_ok(*map, position, m.1@)
                &&& has_route(*map, position, m.0)
                // nothing nearer was usable: every strictly closer cell
                // (short of the machine-word ceiling) is no candidate
                &&& m.0 == position || forall|q: Point|
                    q.x < usize::MAX && q.y < usize::MAX && cheb_dist(position, q) < cheb_dist(
                        position,
                        m.0,
                    ) ==> !open_candidate(*map, visited@, q)
            },
            None => true,
        },
        open_candidate(*map, visited@, position) ==> r is Some,
{
    let t0 = map.get(&position);
    if (t0 == Tile::Empty || t0 == Tile::Unknown) && !contains_point(visited, &position) {
        let route = find_path(map, position, position);
        return Some((position, route));
    }
    let w = map.width();
    let h = map.height();
    let limit = if w > h {
        w
    } else {
        h
    };
    proof {
        assert(limit == spec_search_limit(*map));
    }
    if limit == 0 {
        return None;
    }
    let ghost mut wit: Point = position;
    let mut rad: usize = 1;
    loop
        invariant
            1 <= rad <= limit,
            forall|q: Point|
                q.x < usize::MAX && q.y < usize::MAX && 1 <= cheb_dist(position, q) < rad
                    ==> !open_candidate(*map, visited@, q),
        decreases limit - rad,
    {
        let mut had: bool = false;
        let mut best: Option<(Point, Vec<Point>)> = None;
        proof {
            wit = position;
        }

        let xlo = if position.x >= rad {
            position.x - rad
        } else {
            0
        };
        let xhi = if position.x <= usize::MAX - rad {
            if position.x + rad <= usize::MAX - 1 {
                position.x + rad
            } else {
                usize::MAX - 1
            }
        } else {
            usize::MAX - 1
        };
        let ylo = if position.y >= rad {
            position.y - rad
        } else {
            0
        };
        let yhi = if position.y <= usize::MAX - rad {
            if position.y + rad <= usize::MAX - 1 {
                position.y + rad
            } else {
                usize::MAX - 1
            }
        } else {
            usize::MAX - 1
        };

        let mut x = xlo;
        while x <= xhi
            invariant
                xlo <= x,
                x <= xhi + 1,
                xhi < usize::MAX,
                !had ==> best is None,
                had && best is None ==> open_candidate(*map, visited@, wit) && cheb_dist(
                    position,
                    wit,
                ) == rad && !has_route(*map, position, wit),
                !had ==> forall|q: Point|
                    q.x < usize::MAX && q.y < usize::MAX && cheb_dist(position, q) == rad && q.x
                        < x ==> !open_candidate(*map, visited@, q),
                match best {
                    Some(m) => cheb_dist(position, m.0) == rad,
                    None => true,
                },
                match best {
                    Some(m) => {
                        &&& !visited@.contains(m.0)
                        &&& (map.tile_at(m.0) == Tile::Empty || map.tile_at(m.0) == Tile::Unknown)
                        &&& m.1@.len() > 0
                        &&& m.1@[0] == m.0
                        &&& route_ok(*map, position, m.1@)
                        &&& has_route(*map, position, m.0)
                    },
                    None => true,
                },
            decreases xhi + 1 - x,
        {
            let mut y = ylo;
            while y <= yhi
                invariant
                    ylo <= y,
                    y <= yhi + 1,
                    yhi < usize::MAX,
                    !had ==> best is None,
                    had && best is None ==> open_candidate(*map, visited@, wit) && cheb_dist(
                        position,
                        wit,
                    ) == rad && !has_route(*map, position, wit),
                    !had ==> forall|q: Point|
                        q.x < usize::MAX && q.y < usize::MAX && cheb_dist(position, q) == rad
                            && q.x < x ==> !open_candidate(*map, visited@, q),
                    !had ==> forall|q: Point|
                        q.y < usize::MAX && cheb_dist(position, q) == rad && q.x == x && q.y < y
                            ==> !open_candidate(*map, visited@, q),
                    match best {
                        Some(m) => cheb_dist(position, m.0) == rad,
                        None => true,
                    },
                    match best {
                        Some(m) => {
                            &&& !visited@.contains(m.0)
                            &&& (map.tile_at(m.0) == Tile::Empty || map.tile_at(m.0)
                                == Tile::Unknown)
                            &&& m.1@.len() > 0
                            &&& m.1@[0] == m.0
                            &&& route_ok(*map, position, m.1@)
                            &&& has_route(*map, position, m.0)
                        },
                        None => true,
                    },
                decreases yhi + 1 - y,
            {
                let dx = if x >= position.x {
                    x - position.x
                } else {
                    position.x - x
                };
                let dy = if y >= position.y {
                    y - position.y
                } else {
                    position.y - y
                };
                let cheb = if dx >= dy {
                    dx
                } else {
                    dy
                };
                if cheb == rad {
                    let q = Point { x, y };
                    let t = map.get(&q);
                    if (t == Tile::Empty || t == Tile::Unknown) && !contains_point(visited, &q) {
                        had = true;
                        let route = find_path(map, position, q);
                        if route.len() == 0 {
                            proof {
                                wit = q;
                            }
                        }
                        if route.len() > 0 {
                            let better = match &best {
                                Some(m) => route.len() < m.1.len(),
                                None => true,
                            };
                            if better {
                                best = Some((q, route));
                            }
                        }
                    }
                }
                y = y + 1;
            }
            x = x + 1;
        }

        if had {
            proof {
                if best is None {
                    assert forall|q: Point|
                        q.x < usize::MAX && q.y < usize::MAX && 1 <= cheb_dist(position, q)
                            <= spec_search_limit(*map) && open_candidate(*map, visited@, q)
                        implies exists|w2: Point|
                        open_candidate(*map, visited@, w2) && cheb_dist(position, w2)
                            <= cheb_dist(position, q) && !has_route(*map, position, w2) by {
                        assert(open_candidate(*map, visited@, wit) && cheb_dist(position, wit)
                            <= cheb_dist(position, q) && !has_route(*map, position, wit));
                    }
                }
            }
            return best;
        }
        if rad == limit {
            return None;
        }
        rad = rad + 1;
    }
}

} // verus!
