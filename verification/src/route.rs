//! The search for the cheapest route on the board.
//!
//! A head gets to a cell first at some tick: the start at tick 0, and a
//! cell at tick `t` when `t` is the first tick at which it may enter the
//! cell from a neighbour that it got to at tick `t - 1`. A route goes in
//! single steps; the step from one cell to the next is open when the head
//! may enter the next cell one tick after it first got to the cell it
//! comes from. A step costs 1, and 15 more onto a hazard.

use vstd::prelude::*;
use crate::board::{in_bounds, lemma_larger_margin, move_allowed, Board, BoardModel};
use crate::direction::Direction;
use crate::grid::{lemma_points_fit, GridModel, GridObject};
use crate::path::Path;
use crate::point::Point;
use crate::seqs::holds;

verus! {

/// The price of a step onto a hazard.
pub const HAZARD_STEP: usize = 16;

/// The number of cells of a board.
pub open spec fn cell_count(bound: Point) -> int {
    if bound.x < 0 || bound.y < 0 {
        0
    } else {
        (bound.x + 1) * (bound.y + 1)
    }
}

/// The index of the cell at `p`, row by row.
pub open spec fn cell_index(bound: Point, p: Point) -> int {
    p.y * (bound.x + 1) + p.x
}

/// The price of the step onto `p`.
pub open spec fn step_cost(hazards: Seq<Point>, p: Point) -> int {
    if hazards.contains(p) {
        HAZARD_STEP as int
    } else {
        1
    }
}

/// Whether `p` lies on the board under no snake.
pub open spec fn free(b: BoardModel, p: Point) -> bool {
    &&& in_bounds(b.bound, p)
    &&& forall|i: int| 0 <= i < b.snakes.len() ==> !(#[trigger] b.snakes[i]).body.contains(p)
}

/// `walk` leads from `s` to `e` in single steps over free cells.
pub open spec fn is_free_walk(b: BoardModel, walk: Seq<Point>, s: Point, e: Point) -> bool {
    &&& walk.len() >= 1
    &&& walk[0] == s
    &&& walk.last() == e
    &&& forall|k: int|
        1 <= k < walk.len() ==> free(b, #[trigger] walk[k]) && walk[k - 1].manhattan(walk[k]) == 1
}

/// The tick, no later than `t`, at which a head that starts on `s` first
/// gets to `c`.
pub open spec fn ticked(b: BoardModel, s: Point, c: Point, t: nat) -> Option<nat>
    decreases t,
{
    if c == s {
        Some(0nat)
    } else if t == 0 {
        None
    } else {
        let u = (t - 1) as nat;
        match ticked(b, s, c, u) {
            Some(v) => Some(v),
            None => if move_allowed(b, c, t) && (ticked(b, s, c.step(Direction::Right), u) == Some(u)
                || ticked(b, s, c.step(Direction::Left), u) == Some(u) || ticked(
                b,
                s,
                c.step(Direction::Up),
                u,
            ) == Some(u) || ticked(b, s, c.step(Direction::Down), u) == Some(u)) {
                Some(t)
            } else {
                None
            },
        }
    }
}

/// Whether a head that starts on `s` first gets to `c` at tick `t`.
pub open spec fn first_tick(b: BoardModel, s: Point, c: Point, t: nat) -> bool {
    ticked(b, s, c, t) == Some(t)
}

/// Whether the step from `from` to the neighbour `to` is open: the head may
/// enter `to` one tick after it first got to `from`.
pub open spec fn enters(b: BoardModel, s: Point, from: Point, to: Point) -> bool {
    exists|u: nat| #[trigger] first_tick(b, s, from, u) && move_allowed(b, to, u + 1)
}

/// Whether the step onto `r[i]` is a single step that is open. The step
/// onto `r[0]` comes from `from`.
pub open spec fn step_ok(b: BoardModel, s: Point, from: Point, r: Seq<Point>, i: int) -> bool {
    let prev = if i == 0 {
        from
    } else {
        r[i - 1]
    };
    prev.manhattan(r[i]) == 1 && enters(b, s, prev, r[i])
}

/// `r` goes on from `from` in single steps that are open.
pub open spec fn is_route_from(b: BoardModel, s: Point, from: Point, r: Seq<Point>) -> bool {
    forall|i: int| 0 <= i < r.len() ==> #[trigger] step_ok(b, s, from, r, i)
}

/// `r` is a route from `s`: the steps to take, the first one first.
pub open spec fn is_route(b: BoardModel, s: Point, r: Seq<Point>) -> bool {
    is_route_from(b, s, s, r)
}

/// Where a route from `s` ends.
pub open spec fn route_end(s: Point, r: Seq<Point>) -> Point {
    if r.len() == 0 {
        s
    } else {
        r.last()
    }
}

/// The price of a route: 1 for each step, and 15 more for each step onto a
/// hazard.
pub open spec fn route_cost(hazards: Seq<Point>, r: Seq<Point>) -> int
    decreases r.len(),
{
    if r.len() == 0 {
        0
    } else {
        route_cost(hazards, r.drop_last()) + step_cost(hazards, r.last())
    }
}

/// `c` is the least price of a route from `s` to `e`.
pub open spec fn is_least_cost(
    b: BoardModel,
    hazards: Seq<Point>,
    s: Point,
    e: Point,
    c: int,
) -> bool {
    &&& exists|r: Seq<Point>| #[trigger] is_route(b, s, r) && route_end(s, r) == e && route_cost(hazards, r) == c
    &&& forall|r: Seq<Point>| #[trigger] is_route(b, s, r) && route_end(s, r) == e ==> c <= route_cost(hazards, r)
}

/// Whether no route leads from `s` to `e`.
pub open spec fn no_route(b: BoardModel, s: Point, e: Point) -> bool {
    forall|r: Seq<Point>| !(#[trigger] is_route(b, s, r) && route_end(s, r) == e)
}

/// The lower of two prices, where there are any.
pub open spec fn lower(a: Option<int>, b: Option<int>) -> Option<int> {
    match (a, b) {
        (Some(x), Some(y)) => if y < x {
            Some(y)
        } else {
            Some(x)
        },
        (Some(x), None) => Some(x),
        (None, _) => b,
    }
}

/// The price of a route that goes on by a step of the price `cost` from a
/// cell that is reached at the price `prev`, where the step is open.
pub open spec fn via(prev: Option<int>, open: bool, cost: int) -> Option<int> {
    match prev {
        Some(v) => if open {
            Some(v + cost)
        } else {
            None
        },
        None => None,
    }
}

/// The least price of a route of exactly `k` steps from `s` to `c`.
pub open spec fn best(b: BoardModel, hazards: Seq<Point>, s: Point, k: nat, c: Point) -> Option<int>
    decreases k,
{
    if k == 0 {
        if c == s {
            Some(0int)
        } else {
            None
        }
    } else {
        let j = (k - 1) as nat;
        let cost = step_cost(hazards, c);
        lower(
            lower(
                lower(
                    via(
                        best(b, hazards, s, j, c.step(Direction::Right)),
                        enters(b, s, c.step(Direction::Right), c),
                        cost,
                    ),
                    via(
                        best(b, hazards, s, j, c.step(Direction::Left)),
                        enters(b, s, c.step(Direction::Left), c),
                        cost,
                    ),
                ),
                via(
                    best(b, hazards, s, j, c.step(Direction::Up)),
                    enters(b, s, c.step(Direction::Up), c),
                    cost,
                ),
            ),
            via(
                best(b, hazards, s, j, c.step(Direction::Down)),
                enters(b, s, c.step(Direction::Down), c),
                cost,
            ),
        )
    }
}

/// Two points of the board have the same index only if they are the same,
/// and the index is the index of a cell.
pub proof fn lemma_cells(bound: Point, p: Point, q: Point)
    requires
        in_bounds(bound, p),
        in_bounds(bound, q),
    ensures
        0 <= cell_index(bound, p) < cell_count(bound),
        cell_index(bound, p) == cell_index(bound, q) ==> p == q,
{
    let w = bound.x + 1;
    let h = bound.y + 1;
    let (px, py, qx, qy) = (p.x as int, p.y as int, q.x as int, q.y as int);
    assert(0 <= py * w + px < w * h) by (nonlinear_arith)
        requires
            0 <= px < w,
            0 <= py < h,
    ;
    assert(w * h == h * w) by (nonlinear_arith);
    if py * w + px == qy * w + qx {
        assert(py == qy) by (nonlinear_arith)
            requires
                py * w + px == qy * w + qx,
                0 <= px < w,
                0 <= qx < w,
        ;
    }
}

/// A point at distance one is a step away.
pub proof fn lemma_adjacent_is_step(p: Point, q: Point)
    requires
        p.can_step(),
        p.manhattan(q) == 1,
    ensures
        exists|d: Direction| q == #[trigger] p.step(d),
{
    if q.x == p.x + 1 {
        assert(q == p.step(Direction::Right));
    } else if q.x == p.x - 1 {
        assert(q == p.step(Direction::Left));
    } else if q.y == p.y + 1 {
        assert(q == p.step(Direction::Up));
    } else {
        assert(q == p.step(Direction::Down));
    }
}

/// What `ticked` gives is a first tick, and no later than asked for.
pub proof fn lemma_ticked(b: BoardModel, s: Point, c: Point, t: nat)
    ensures
        match ticked(b, s, c, t) {
            Some(u) => u <= t && first_tick(b, s, c, u),
            None => forall|u: nat| u <= t ==> !#[trigger] first_tick(b, s, c, u),
        },
        c != s && ticked(b, s, c, t) is Some ==> in_bounds(b.bound, c) && ticked(b, s, c, t)->0 >= 1,
    decreases t,
{
    if c != s && t > 0 {
        lemma_ticked(b, s, c, (t - 1) as nat);
    }
}

/// A first tick stays the tick for ever after.
pub proof fn lemma_ticked_later(b: BoardModel, s: Point, c: Point, u: nat, t: nat)
    requires
        first_tick(b, s, c, u),
        u <= t,
    ensures
        ticked(b, s, c, t) == Some(u),
    decreases t - u,
{
    if u < t {
        lemma_ticked_later(b, s, c, u, (t - 1) as nat);
    }
}

/// A cell has one first tick.
pub proof fn lemma_first_tick_is_unique(b: BoardModel, s: Point, c: Point, u: nat, v: nat)
    requires
        first_tick(b, s, c, u),
        first_tick(b, s, c, v),
    ensures
        u == v,
{
    if u < v {
        lemma_ticked_later(b, s, c, u, v);
    } else if v < u {
        lemma_ticked_later(b, s, c, v, u);
    }
}

/// After a tick at which the head first gets to no cell, it first gets to
/// no cell any more.
proof fn lemma_quiet(b: BoardModel, s: Point, quiet: nat, c: Point, u: nat)
    requires
        quiet >= 1,
        forall|p: Point| !#[trigger] first_tick(b, s, p, quiet),
        u >= quiet,
    ensures
        !first_tick(b, s, c, u),
    decreases u,
{
    if u > quiet {
        let v = (u - 1) as nat;
        lemma_quiet(b, s, quiet, c.step(Direction::Right), v);
        lemma_quiet(b, s, quiet, c.step(Direction::Left), v);
        lemma_quiet(b, s, quiet, c.step(Direction::Up), v);
        lemma_quiet(b, s, quiet, c.step(Direction::Down), v);
        assert(ticked(b, s, c.step(Direction::Right), v) != Some(v));
        assert(ticked(b, s, c.step(Direction::Left), v) != Some(v));
        assert(ticked(b, s, c.step(Direction::Up), v) != Some(v));
        assert(ticked(b, s, c.step(Direction::Down), v) != Some(v));
        lemma_ticked(b, s, c, v);
    } else {
        assert(!first_tick(b, s, c, quiet));
    }
}

/// The price of a route in two parts is the price of the parts.
pub proof fn lemma_cost_concat(hazards: Seq<Point>, a: Seq<Point>, c: Seq<Point>)
    ensures
        route_cost(hazards, a + c) == route_cost(hazards, a) + route_cost(hazards, c),
        route_cost(hazards, c) >= c.len(),
    decreases c.len(),
{
    if c.len() == 0 {
        assert(a + c =~= a);
    } else {
        lemma_cost_concat(hazards, a, c.drop_last());
        assert((a + c).drop_last() =~= a + c.drop_last());
        assert((a + c).last() == c.last());
    }
}

/// A route can be gone as it stands: the head first gets to each cell of
/// it no later than the route does, and may enter the cell at the tick at
/// which the route comes to it, which is tick `i + 1` for `r[i]`.
pub proof fn lemma_route_can_be_gone(b: BoardModel, s: Point, r: Seq<Point>, i: int)
    requires
        b.wf(),
        is_route(b, s, r),
        0 <= i < r.len(),
    ensures
        exists|u: nat| u <= i + 1 && #[trigger] first_tick(b, s, r[i], u),
        move_allowed(b, r[i], (i + 1) as nat),
    decreases i,
{
    let c = r[i];
    let prev = if i == 0 {
        s
    } else {
        r[i - 1]
    };
    assert(step_ok(b, s, s, r, i));
    let u = choose|u: nat| #[trigger] first_tick(b, s, prev, u) && move_allowed(b, c, u + 1);
    if i > 0 {
        lemma_route_can_be_gone(b, s, r, i - 1);
        let v = choose|v: nat| v <= i && #[trigger] first_tick(b, s, prev, v);
        lemma_first_tick_is_unique(b, s, prev, u, v);
    }
    assert(u <= i);
    lemma_larger_margin(b, c, u + 1, (i + 1) as nat);
    lemma_ticked(b, s, c, u);
    lemma_adjacent_is_step(c, prev);
    match ticked(b, s, c, u) {
        Some(v) => {
            assert(first_tick(b, s, c, v));
        },
        None => {
            assert(first_tick(b, s, c, u + 1));
        },
    }
}

/// From a point to itself the route without a step is the cheapest: it
/// costs nothing, whatever the board and the hazards.
pub proof fn lemma_route_to_itself(b: BoardModel, hazards: Seq<Point>, p: Point)
    ensures
        is_route(b, p, Seq::empty()),
        route_end(p, Seq::empty()) == p,
        route_cost(hazards, Seq::empty()) == 0,
        is_least_cost(b, hazards, p, p, 0),
{
    let none = Seq::<Point>::empty();
    assert(is_route(b, p, none) && route_end(p, none) == p && route_cost(hazards, none) == 0);
    assert forall|r: Seq<Point>| #[trigger] is_route(b, p, r) && route_end(p, r) == p implies 0
        <= route_cost(hazards, r) by {
        lemma_cost_concat(hazards, none, r);
    }
}

/// A route of `k` steps costs no less than the least price of such routes.
proof fn lemma_route_bound(b: BoardModel, hazards: Seq<Point>, s: Point, r: Seq<Point>)
    requires
        b.wf(),
        is_route(b, s, r),
    ensures
        best(b, hazards, s, r.len(), route_end(s, r)) is Some,
        best(b, hazards, s, r.len(), route_end(s, r))->0 <= route_cost(hazards, r),
    decreases r.len(),
{
    if r.len() > 0 {
        let before = r.drop_last();
        let c = r.last();
        let prev = route_end(s, before);
        assert forall|i: int| 0 <= i < before.len() implies #[trigger] step_ok(b, s, s, before, i) by {
            assert(step_ok(b, s, s, r, i));
        }
        lemma_route_bound(b, hazards, s, before);
        assert(step_ok(b, s, s, r, r.len() - 1));
        assert(prev.manhattan(c) == 1 && enters(b, s, prev, c));
        let u = choose|u: nat| #[trigger] first_tick(b, s, prev, u) && move_allowed(b, c, u + 1);
        assert(in_bounds(b.bound, c));
        lemma_adjacent_is_step(c, prev);
    }
}

/// The least price of the routes of `k` steps is the price of one of them,
/// which is at least `k` and at most 16 for each step.
proof fn lemma_best_bounds(b: BoardModel, hazards: Seq<Point>, s: Point, k: nat, c: Point)
    ensures
        best(b, hazards, s, k, c) is Some ==> k <= best(b, hazards, s, k, c)->0 <= HAZARD_STEP * k
            && (k >= 1 ==> in_bounds(b.bound, c)),
    decreases k,
{
    if k > 0 {
        let j = (k - 1) as nat;
        lemma_best_bounds(b, hazards, s, j, c.step(Direction::Right));
        lemma_best_bounds(b, hazards, s, j, c.step(Direction::Left));
        lemma_best_bounds(b, hazards, s, j, c.step(Direction::Up));
        lemma_best_bounds(b, hazards, s, j, c.step(Direction::Down));
        if best(b, hazards, s, k, c) is Some {
            assert(enters(b, s, c.step(Direction::Right), c) || enters(
                b,
                s,
                c.step(Direction::Left),
                c,
            ) || enters(b, s, c.step(Direction::Up), c) || enters(b, s, c.step(Direction::Down), c));
        }
    }
}

/// A route on which a cell comes twice, or the start comes again, has a
/// cheaper route to the same end inside it: the one without the round
/// trip. `i` is -1 for the start.
proof fn lemma_cut(b: BoardModel, hazards: Seq<Point>, s: Point, r: Seq<Point>, i: int, j: int)
    requires
        is_route(b, s, r),
        -1 <= i < j < r.len(),
        (if i < 0 {
            s
        } else {
            r[i]
        }) == r[j],
    ensures
        is_route(b, s, r.take(i + 1) + r.skip(j + 1)),
        route_end(s, r.take(i + 1) + r.skip(j + 1)) == route_end(s, r),
        route_cost(hazards, r.take(i + 1) + r.skip(j + 1)) < route_cost(hazards, r),
        (r.take(i + 1) + r.skip(j + 1)).len() < r.len(),
{
    let a = r.take(i + 1);
    let mid = r.subrange(i + 1, j + 1);
    let z = r.skip(j + 1);
    let cut = a + z;
    assert(r =~= a + mid + z);
    lemma_cost_concat(hazards, a, mid);
    lemma_cost_concat(hazards, a + mid, z);
    lemma_cost_concat(hazards, a, z);
    assert forall|m: int| 0 <= m < cut.len() implies #[trigger] step_ok(b, s, s, cut, m) by {
        if m <= i {
            assert(step_ok(b, s, s, r, m));
            assert(cut[m] == r[m]);
            if m > 0 {
                assert(cut[m - 1] == r[m - 1]);
            }
        } else {
            let o = m + (j - i);
            assert(step_ok(b, s, s, r, o));
            assert(cut[m] == r[o]);
            if m == i + 1 {
                if m > 0 {
                    assert(cut[m - 1] == r[i]);
                }
            } else {
                assert(cut[m - 1] == r[o - 1]);
            }
        }
    }
    if z.len() > 0 {
        assert(cut.last() == r.last());
    } else if i >= 0 {
        assert(cut.last() == r[i]);
    }
}

/// A route goes on from the cell before its start when the step from
/// there to its start is open.
proof fn lemma_prepend(
    b: BoardModel,
    hazards: Seq<Point>,
    s: Point,
    from: Point,
    c: Point,
    r: Seq<Point>,
)
    requires
        is_route_from(b, s, c, r),
        from.manhattan(c) == 1,
        enters(b, s, from, c),
    ensures
        is_route_from(b, s, from, seq![c] + r),
        route_cost(hazards, seq![c] + r) == step_cost(hazards, c) + route_cost(hazards, r),
        route_end(from, seq![c] + r) == route_end(c, r),
{
    let whole = seq![c] + r;
    lemma_cost_concat(hazards, seq![c], r);
    let one = seq![c];
    assert(one.len() == 1 && one.last() == c);
    assert(one.drop_last() =~= Seq::<Point>::empty());
    assert(route_cost(hazards, one.drop_last()) == 0);
    assert(route_cost(hazards, one) == step_cost(hazards, c));
    assert forall|i: int| 0 <= i < whole.len() implies #[trigger] step_ok(b, s, from, whole, i) by {
        if i > 0 {
            assert(step_ok(b, s, c, r, i - 1));
            assert(whole[i] == r[i - 1]);
            if i > 1 {
                assert(whole[i - 1] == r[i - 2]);
            }
        }
    }
    if r.len() > 0 {
        assert(whole.last() == r.last());
    }
}

/// The next layer makes what was found the least price among the routes
/// of one step more.
proof fn lemma_found_next(
    b: BoardModel,
    hazards: Seq<Point>,
    s: Point,
    e: Point,
    before: Option<(usize, usize)>,
    value: Option<usize>,
    k: int,
)
    requires
        1 <= k <= usize::MAX,
        found_ok(b, hazards, s, e, before, k - 1),
        as_int(value) == best(b, hazards, s, k as nat, e),
    ensures
        found_ok(b, hazards, s, e, taken(before, value, k), k),
{
    let after = taken(before, value, k);
    match after {
        Some((c, kk)) => {
            assert forall|j: nat| j <= k implies lower(
                Some(c as int),
                #[trigger] best(b, hazards, s, j, e),
            ) == Some(c as int) by {
                if j < k {
                    match before {
                        Some((c0, _)) => {
                            assert(lower(Some(c0 as int), best(b, hazards, s, j, e)) == Some(
                                c0 as int,
                            ));
                        },
                        None => {
                            assert(best(b, hazards, s, j, e) is None);
                        },
                    }
                }
            }
        },
        None => {
            assert forall|j: nat| j <= k implies #[trigger] best(b, hazards, s, j, e) is None by {
                if j < k {
                    assert(best(b, hazards, s, j, e) is None);
                }
            }
        },
    }
}

/// What is found once a layer gives the price `value` for the end: the
/// lower price, and the first layer that gave it.
pub open spec fn taken(before: Option<(usize, usize)>, value: Option<usize>, k: int) -> Option<
    (usize, usize),
> {
    match (before, value) {
        (None, Some(c)) => Some((c, k as usize)),
        (Some((c0, k0)), Some(c)) => if c < c0 {
            Some((c, k as usize))
        } else {
            before
        },
        _ => before,
    }
}

/// A cheapest route comes to no cell twice and not back to its start.
proof fn lemma_cheapest_is_simple(
    b: BoardModel,
    hazards: Seq<Point>,
    s: Point,
    e: Point,
    r: Seq<Point>,
)
    requires
        is_route(b, s, r),
        route_end(s, r) == e,
        forall|o: Seq<Point>| #[trigger]
            is_route(b, s, o) && route_end(s, o) == e ==> route_cost(hazards, r) <= route_cost(
                hazards,
                o,
            ),
    ensures
        r.no_duplicates(),
        !r.contains(s),
{
    if !r.no_duplicates() {
        let (i, j) = choose|i: int, j: int|
            0 <= i < r.len() && 0 <= j < r.len() && i != j && r[i] == r[j];
        if i < j {
            lemma_cut(b, hazards, s, r, i, j);
            assert(is_route(b, s, r.take(i + 1) + r.skip(j + 1)));
        } else {
            lemma_cut(b, hazards, s, r, j, i);
            assert(is_route(b, s, r.take(j + 1) + r.skip(i + 1)));
        }
    }
    if r.contains(s) {
        let j = choose|j: int| 0 <= j < r.len() && r[j] == s;
        lemma_cut(b, hazards, s, r, -1, j);
        assert(is_route(b, s, r.take(0) + r.skip(j + 1)));
    }
}

/// Points of the board that are more than its cells hold one point twice.
proof fn lemma_twice(bound: Point, r: Seq<Point>)
    requires
        forall|k: int| 0 <= k < r.len() ==> in_bounds(bound, #[trigger] r[k]),
        r.len() > cell_count(bound),
    ensures
        exists|i: int, j: int| 0 <= i < j < r.len() && r[i] == r[j],
{
    assert(in_bounds(bound, r[0]));
    let (w, h) = ((bound.x + 1) as nat, (bound.y + 1) as nat);
    let g = GridModel {
        height: h,
        width: w,
        cells: Seq::new((h * w) as nat, |i: int| GridObject::Empty),
        ignore_hazard: false,
    };
    assert(h * w == cell_count(bound)) by (nonlinear_arith)
        requires
            w == bound.x + 1,
            h == bound.y + 1,
            cell_count(bound) == (bound.x + 1) * (bound.y + 1),
    ;
    if r.no_duplicates() {
        assert forall|k: int| 0 <= k < r.len() implies g.in_bounds(#[trigger] r[k]) by {
            assert(in_bounds(bound, r[k]));
        }
        lemma_points_fit(g, r);
    } else {
        let (i, j) = choose|i: int, j: int|
            0 <= i < r.len() && 0 <= j < r.len() && i != j && r[i] == r[j];
        if i < j {
            assert(0 <= i < j < r.len() && r[i] == r[j]);
        } else {
            assert(0 <= j < i < r.len() && r[j] == r[i]);
        }
    }
}

/// Every route has a route to the same end at no higher price that is no
/// longer than the board has cells.
proof fn lemma_short_route(b: BoardModel, hazards: Seq<Point>, s: Point, r: Seq<Point>) -> (short: Seq<
    Point,
>)
    requires
        is_route(b, s, r),
    ensures
        is_route(b, s, short),
        route_end(s, short) == route_end(s, r),
        route_cost(hazards, short) <= route_cost(hazards, r),
        short.len() <= cell_count(b.bound),
        short.len() <= r.len(),
    decreases r.len(),
{
    if r.len() <= cell_count(b.bound) {
        r
    } else {
        assert forall|k: int| 0 <= k < r.len() implies in_bounds(b.bound, #[trigger] r[k]) by {
            assert(step_ok(b, s, s, r, k));
        }
        lemma_twice(b.bound, r);
        let (i, j) = choose|i: int, j: int| 0 <= i < j < r.len() && r[i] == r[j];
        lemma_cut(b, hazards, s, r, i, j);
        lemma_short_route(b, hazards, s, r.take(i + 1) + r.skip(j + 1))
    }
}

/// How many of the first `n` cells have a tick.
pub open spec fn known(table: Seq<Option<usize>>, n: int) -> int
    decreases n,
{
    if n <= 0 {
        0
    } else {
        known(table, n - 1) + if table[n - 1] is Some {
            1int
        } else {
            0int
        }
    }
}

proof fn lemma_known(old: Seq<Option<usize>>, new: Seq<Option<usize>>, n: int)
    requires
        0 <= n <= old.len(),
        old.len() == new.len(),
        forall|i: int| 0 <= i < n && old[i] is Some ==> new[i] is Some,
    ensures
        0 <= known(old, n) <= known(new, n) <= n,
        (exists|i: int| 0 <= i < n && old[i] is None && new[i] is Some) ==> known(old, n) < known(
            new,
            n,
        ),
    decreases n,
{
    if n > 0 {
        lemma_known(old, new, n - 1);
        if exists|i: int| 0 <= i < n && old[i] is None && new[i] is Some {
            let i = choose|i: int| 0 <= i < n && old[i] is None && new[i] is Some;
            if i < n - 1 {
                assert(0 <= i < n - 1 && old[i] is None && new[i] is Some);
            }
        }
    }
}

/// The tick that a table of ticks holds for `p`.
pub open spec fn tick_in(table: Seq<Option<usize>>, bound: Point, s: Point, p: Point) -> Option<nat> {
    if p == s {
        Some(0nat)
    } else if in_bounds(bound, p) {
        match table[cell_index(bound, p)] {
            Some(u) => Some(u as nat),
            None => None,
        }
    } else {
        None
    }
}

/// The table holds for each cell the tick, no later than `t`, at which the
/// head first gets there.
pub open spec fn table_is(b: BoardModel, s: Point, table: Seq<Option<usize>>, t: nat) -> bool {
    &&& table.len() == cell_count(b.bound)
    &&& forall|i: int| 0 <= i < table.len() && (#[trigger] table[i]) is Some ==> table[i]->0 <= t
    &&& forall|p: Point| #[trigger] tick_in(table, b.bound, s, p) == ticked(b, s, p, t)
}

/// The table holds for each cell the tick at which the head first gets
/// there.
pub open spec fn ticks_ok(b: BoardModel, s: Point, table: Seq<Option<usize>>) -> bool {
    &&& table.len() == cell_count(b.bound)
    &&& forall|i: int| 0 <= i < table.len() && (#[trigger] table[i]) is Some ==> table[i]->0 <= table.len()
    &&& forall|p: Point, u: nat|
        tick_in(table, b.bound, s, p) == Some(u) <==> #[trigger] first_tick(b, s, p, u)
}

/// The price that a layer of prices holds for `p`.
pub open spec fn cost_in(layer: Seq<Option<usize>>, bound: Point, p: Point) -> Option<int> {
    if in_bounds(bound, p) {
        match layer[cell_index(bound, p)] {
            Some(v) => Some(v as int),
            None => None,
        }
    } else {
        None
    }
}

/// The layer holds for each cell the least price of a route of `k` steps
/// to it.
pub open spec fn layer_is(
    b: BoardModel,
    hazards: Seq<Point>,
    s: Point,
    layer: Seq<Option<usize>>,
    k: nat,
) -> bool {
    &&& k >= 1
    &&& layer.len() == cell_count(b.bound)
    &&& forall|p: Point| #[trigger] cost_in(layer, b.bound, p) == best(b, hazards, s, k, p)
}

/// The layers hold the least prices of the routes of 1 to `n` steps.
pub open spec fn layers_ok(
    b: BoardModel,
    hazards: Seq<Point>,
    s: Point,
    layers: Seq<Vec<Option<usize>>>,
) -> bool {
    forall|j: int| 0 <= j < layers.len() ==> layer_is(b, hazards, s, (#[trigger] layers[j])@, (j + 1) as nat)
}

/// The search has found the least price among the routes of up to `done`
/// steps, and the least number of steps that it takes.
pub open spec fn found_ok(
    b: BoardModel,
    hazards: Seq<Point>,
    s: Point,
    e: Point,
    found: Option<(usize, usize)>,
    done: int,
) -> bool {
    match found {
        Some((c, k)) => {
            &&& 1 <= k <= done
            &&& best(b, hazards, s, k as nat, e) == Some(c as int)
            &&& forall|j: nat| j <= done ==> lower(Some(c as int), #[trigger] best(b, hazards, s, j, e)) == Some(c as int)
        },
        None => forall|j: nat| j <= done ==> #[trigger] best(b, hazards, s, j, e) is None,
    }
}

/// The price that was found.
pub open spec fn found_cost(found: Option<(usize, usize)>) -> int {
    match found {
        Some((c, _)) => c as int,
        None => 0,
    }
}

/// What the search has found is the least price of all routes, or there
/// is no route.
proof fn lemma_found(
    b: BoardModel,
    hazards: Seq<Point>,
    s: Point,
    e: Point,
    found: Option<(usize, usize)>,
    done: int,
)
    requires
        b.wf(),
        0 <= done <= cell_count(b.bound),
        found_ok(b, hazards, s, e, found, done),
        done == cell_count(b.bound) || (found is Some && found_cost(found) <= done),
    ensures
        found is None ==> no_route(b, s, e),
        found is Some ==> forall|r: Seq<Point>| #[trigger]
            is_route(b, s, r) && route_end(s, r) == e ==> found_cost(found) <= route_cost(hazards, r),
{
    assert forall|r: Seq<Point>| #[trigger] is_route(b, s, r) && route_end(s, r) == e implies found is Some
        && found_cost(found) <= route_cost(hazards, r) by {
        let short = lemma_short_route(b, hazards, s, r);
        lemma_route_bound(b, hazards, s, short);
        lemma_cost_concat(hazards, Seq::empty(), short);
        let k = short.len();
        let v = best(b, hazards, s, k, e);
        if k <= done {
            assert(lower(Some(0int), v) == lower(Some(0int), v));
        }
    }
}

impl Board {
    /// The number of cells of the board.
    pub(crate) fn cell_number(&self) -> (n: usize)
        requires
            self.wf(),
        ensures
            n == cell_count(self@.bound),
    {
        if self.bound.x < 0 || self.bound.y < 0 {
            0
        } else {
            let w = (self.bound.x + 1) as usize;
            let h = (self.bound.y + 1) as usize;
            assert(w * h == cell_count(self@.bound)) by (nonlinear_arith)
                requires
                    w == self@.bound.x + 1,
                    h == self@.bound.y + 1,
                    cell_count(self@.bound) == (self@.bound.x + 1) * (self@.bound.y + 1),
            ;
            w * h
        }
    }

    /// The index of the cell at `p`.
    pub(crate) fn cell_of(&self, p: &Point) -> (i: usize)
        requires
            self.wf(),
            in_bounds(self@.bound, *p),
        ensures
            i == cell_index(self@.bound, *p),
            i < cell_count(self@.bound),
    {
        proof {
            lemma_cells(self@.bound, *p, *p);
        }
        let w = (self.bound.x + 1) as usize;
        let y = p.y as usize;
        let x = p.x as usize;
        assert(0 <= y * w) by (nonlinear_arith)
            requires
                0 <= y,
                0 <= w,
        ;
        y * w + x
    }

    /// The tick that the table holds for `p`.
    fn tick_at(&self, table: &Vec<Option<usize>>, s: &Point, p: &Point) -> (r: Option<usize>)
        requires
            self.wf(),
            table.len() == cell_count(self@.bound),
        ensures
            match r {
                Some(u) => tick_in(table@, self@.bound, *s, *p) == Some(u as nat),
                None => tick_in(table@, self@.bound, *s, *p) is None,
            },
    {
        if *p == *s {
            Some(0)
        } else if self.is_inbounds(p) {
            table[self.cell_of(p)]
        } else {
            None
        }
    }

    /// Whether the head first gets to a neighbour of `p` at tick `u`.
    fn near(&self, table: &Vec<Option<usize>>, s: &Point, p: &Point, u: usize) -> (r: bool)
        requires
            self.wf(),
            p.can_step(),
            table.len() == cell_count(self@.bound),
        ensures
            r == (tick_in(table@, self@.bound, *s, p.step(Direction::Right)) == Some(u as nat)
                || tick_in(table@, self@.bound, *s, p.step(Direction::Left)) == Some(u as nat)
                || tick_in(table@, self@.bound, *s, p.step(Direction::Up)) == Some(u as nat)
                || tick_in(table@, self@.bound, *s, p.step(Direction::Down)) == Some(u as nat)),
    {
        let right = *p + Direction::Right;
        let left = *p + Direction::Left;
        let up = *p + Direction::Up;
        let down = *p + Direction::Down;
        self.tick_at(table, s, &right) == Some(u) || self.tick_at(table, s, &left) == Some(u)
            || self.tick_at(table, s, &up) == Some(u) || self.tick_at(table, s, &down) == Some(u)
    }

    /// The table of the ticks no later than `t`, made from the table of the
    /// ticks before `t`; and whether the head first gets to a cell at `t`.
    fn tick_round(&self, s: &Point, table: &Vec<Option<usize>>, t: usize) -> (r: (
        Vec<Option<usize>>,
        bool,
    ))
        requires
            self.wf(),
            t >= 1,
            table_is(self@, *s, table@, (t - 1) as nat),
        ensures
            table_is(self@, *s, r.0@, t as nat),
            forall|i: int| 0 <= i < table.len() && table@[i] is Some ==> r.0@[i] is Some,
            r.1 ==> exists|i: int| 0 <= i < table.len() && table@[i] is None && r.0@[i] is Some,
            !r.1 ==> forall|p: Point| !#[trigger] first_tick(self@, *s, p, t as nat),
    {
        let ghost b = self@;
        let ghost w = (b.bound.x + 1) as int;
        let mut next: Vec<Option<usize>> = Vec::new();
        let mut progress = false;
        if self.bound.x < 0 || self.bound.y < 0 {
            proof {
                assert forall|p: Point| #[trigger] tick_in(next@, b.bound, *s, p) == ticked(
                    b,
                    *s,
                    p,
                    t as nat,
                ) by {
                    lemma_ticked(b, *s, p, t as nat);
                }
                assert forall|p: Point| !#[trigger] first_tick(b, *s, p, t as nat) by {
                    lemma_ticked(b, *s, p, t as nat);
                }
            }
            return (next, false);
        }
        let width = (self.bound.x + 1) as usize;
        let height = (self.bound.y + 1) as usize;
        let mut y: usize = 0;
        while y < height
            invariant
                y <= height,
                self.wf(),
                b == self@,
                t >= 1,
                width == b.bound.x + 1,
                height == b.bound.y + 1,
                w == width,
                table_is(b, *s, table@, (t - 1) as nat),
                next.len() == y * width,
                forall|i: int| 0 <= i < next.len() && (#[trigger] next@[i]) is Some ==> next@[i]->0 <= t,
                forall|p: Point|
                    in_bounds(b.bound, p) && p.y < y ==> #[trigger] tick_in(next@, b.bound, *s, p)
                        == ticked(b, *s, p, t as nat),
                forall|i: int| 0 <= i < next.len() && table@[i] is Some ==> next@[i] is Some,
                progress ==> exists|i: int| 0 <= i < next.len() && table@[i] is None && next@[i] is Some,
                !progress ==> forall|p: Point|
                    in_bounds(b.bound, p) && p.y < y ==> !#[trigger] first_tick(b, *s, p, t as nat),
            decreases height - y,
        {
            let mut x: usize = 0;
            while x < width
                invariant
                    x <= width,
                    y < height,
                    self.wf(),
                    b == self@,
                    t >= 1,
                    width == b.bound.x + 1,
                    height == b.bound.y + 1,
                    w == width,
                    table_is(b, *s, table@, (t - 1) as nat),
                    next.len() == y * width + x,
                    forall|i: int|
                        0 <= i < next.len() && (#[trigger] next@[i]) is Some ==> next@[i]->0 <= t,
                    forall|p: Point|
                        in_bounds(b.bound, p) && (p.y < y || (p.y == y && p.x < x)) ==> #[trigger] tick_in(
                            next@,
                            b.bound,
                            *s,
                            p,
                        ) == ticked(b, *s, p, t as nat),
                    forall|i: int| 0 <= i < next.len() && table@[i] is Some ==> next@[i] is Some,
                    progress ==> exists|i: int|
                        0 <= i < next.len() && table@[i] is None && next@[i] is Some,
                    !progress ==> forall|p: Point|
                        in_bounds(b.bound, p) && (p.y < y || (p.y == y && p.x < x)) ==> !#[trigger] first_tick(
                            b,
                            *s,
                            p,
                            t as nat,
                        ),
                decreases width - x,
            {
                let p = Point { x: x as i32, y: y as i32 };
                let i = self.cell_of(&p);
                proof {
                    assert(i == next.len());
                    assert(tick_in(table@, b.bound, *s, p) == ticked(b, *s, p, (t - 1) as nat));
                    assert(tick_in(table@, b.bound, *s, p.step(Direction::Right)) == ticked(
                        b,
                        *s,
                        p.step(Direction::Right),
                        (t - 1) as nat,
                    ));
                    assert(tick_in(table@, b.bound, *s, p.step(Direction::Left)) == ticked(
                        b,
                        *s,
                        p.step(Direction::Left),
                        (t - 1) as nat,
                    ));
                    assert(tick_in(table@, b.bound, *s, p.step(Direction::Up)) == ticked(
                        b,
                        *s,
                        p.step(Direction::Up),
                        (t - 1) as nat,
                    ));
                    assert(tick_in(table@, b.bound, *s, p.step(Direction::Down)) == ticked(
                        b,
                        *s,
                        p.step(Direction::Down),
                        (t - 1) as nat,
                    ));
                    lemma_ticked(b, *s, p, (t - 1) as nat);
                }
                let old = table[i];
                let value = match old {
                    Some(u) => Some(u),
                    None => if p != *s && self.is_allowed(&p, t) && self.near(table, s, &p, t - 1) {
                        Some(t)
                    } else {
                        None
                    },
                };
                let ghost before = next@;
                let was = progress;
                if old.is_none() && value.is_some() {
                    progress = true;
                }
                next.push(value);
                proof {
                    assert(next@[i as int] == value);
                    assert forall|o: int| 0 <= o < next.len() && (#[trigger] next@[o]) is Some implies next@[o]->0
                        <= t by {
                        if o < before.len() {
                            assert(next@[o] == before[o]);
                        }
                    }
                    assert forall|q: Point|
                        in_bounds(b.bound, q) && (q.y < y || (q.y == y && q.x < x + 1)) implies #[trigger] tick_in(
                        next@,
                        b.bound,
                        *s,
                        q,
                    ) == ticked(b, *s, q, t as nat) by {
                        lemma_cells(b.bound, q, p);
                        if q != p {
                            let (qx, qy) = (q.x as int, q.y as int);
                            assert(0 <= qy * w + qx < y * w + x) by (nonlinear_arith)
                                requires
                                    0 <= qx < w,
                                    0 <= qy <= y,
                                    qy < y || qx < x,
                                    0 <= x <= w,
                            ;
                            assert(next@[cell_index(b.bound, q)] == before[cell_index(b.bound, q)]);
                            assert(tick_in(before, b.bound, *s, q) == ticked(b, *s, q, t as nat));
                        }
                    }
                    if !progress {
                        assert forall|q: Point|
                            in_bounds(b.bound, q) && (q.y < y || (q.y == y && q.x < x + 1)) implies !#[trigger] first_tick(
                            b,
                            *s,
                            q,
                            t as nat,
                        ) by {
                            if q == p {
                                lemma_ticked(b, *s, p, t as nat);
                            }
                        }
                    } else if !was {
                        assert(table@[i as int] is None && next@[i as int] is Some);
                    } else {
                        let o = choose|o: int|
                            0 <= o < before.len() && table@[o] is None && before[o] is Some;
                        assert(next@[o] == before[o]);
                    }
                    assert forall|o: int| 0 <= o < next.len() && table@[o] is Some implies next@[o] is Some by {
                        if o < before.len() {
                            assert(next@[o] == before[o]);
                        }
                    }
                }
                x += 1;
            }
            assert((y + 1) * width == y * width + width) by (nonlinear_arith);
            y += 1;
        }
        proof {
            assert(height * width == cell_count(b.bound)) by (nonlinear_arith)
                requires
                    width == b.bound.x + 1,
                    height == b.bound.y + 1,
                    cell_count(b.bound) == (b.bound.x + 1) * (b.bound.y + 1),
            ;
            assert forall|p: Point| #[trigger] tick_in(next@, b.bound, *s, p) == ticked(
                b,
                *s,
                p,
                t as nat,
            ) by {
                if !in_bounds(b.bound, p) {
                    lemma_ticked(b, *s, p, t as nat);
                }
            }
            if !progress {
                assert forall|p: Point| !#[trigger] first_tick(b, *s, p, t as nat) by {
                    if !in_bounds(b.bound, p) {
                        lemma_ticked(b, *s, p, t as nat);
                    }
                }
            }
        }
        (next, progress)
    }

    /// For each cell the tick at which a head that starts on `s` first gets
    /// there.
    fn find_ticks(&self, s: &Point) -> (table: Vec<Option<usize>>)
        requires
            self.wf(),
        ensures
            ticks_ok(self@, *s, table@),
    {
        let ghost b = self@;
        let cells = self.cell_number();
        let mut table: Vec<Option<usize>> = Vec::new();
        let mut i: usize = 0;
        while i < cells
            invariant
                i <= cells,
                table.len() == i,
                forall|j: int| 0 <= j < i ==> table@[j] is None,
            decreases cells - i,
        {
            table.push(None);
            i += 1;
        }
        proof {
            assert forall|p: Point| #[trigger] tick_in(table@, b.bound, *s, p) == ticked(b, *s, p, 0) by {
                if in_bounds(b.bound, p) {
                    lemma_cells(b.bound, p, p);
                }
            }
            lemma_known(table@, table@, cells as int);
        }
        let mut t: usize = 1;
        loop
            invariant_except_break
                self.wf(),
                b == self@,
                cells == cell_count(b.bound),
                1 <= t <= known(table@, cells as int) + 1,
                known(table@, cells as int) <= cells,
                cells < usize::MAX,
                table_is(b, *s, table@, (t - 1) as nat),
            ensures
                ticks_ok(b, *s, table@),
            decreases cells - known(table@, cells as int),
        {
            let (next, progress) = self.tick_round(s, &table, t);
            proof {
                lemma_known(table@, next@, cells as int);
            }
            if !progress {
                proof {
                    assert forall|p: Point, u: nat|
                        tick_in(table@, b.bound, *s, p) == Some(u) <==> #[trigger] first_tick(
                            b,
                            *s,
                            p,
                            u,
                        ) by {
                        lemma_ticked(b, *s, p, (t - 1) as nat);
                        if first_tick(b, *s, p, u) {
                            if u >= t {
                                lemma_quiet(b, *s, t as nat, p, u);
                            } else {
                                lemma_ticked_later(b, *s, p, u, (t - 1) as nat);
                            }
                        }
                    }
                }
                break;
            }
            table = next;
            t = t + 1;
        }
        table
    }

    /// Whether the step from `from` to its neighbour `to` is open.
    fn is_open(&self, table: &Vec<Option<usize>>, s: &Point, from: &Point, to: &Point) -> (r: bool)
        requires
            self.wf(),
            ticks_ok(self@, *s, table@),
        ensures
            r == enters(self@, *s, *from, *to),
    {
        match self.tick_at(table, s, from) {
            Some(u) => {
                proof {
                    lemma_known(table@, table@, table@.len() as int);
                    assert(first_tick(self@, *s, *from, u as nat));
                    assert forall|v: nat| #[trigger]
                        first_tick(self@, *s, *from, v) implies v == u by {
                        lemma_first_tick_is_unique(self@, *s, *from, u as nat, v);
                    }
                    if *from != *s {
                        lemma_cells(self@.bound, *from, *from);
                    }
                }
                self.is_allowed(to, u + 1)
            },
            None => {
                proof {
                    assert forall|v: nat| !#[trigger] first_tick(self@, *s, *from, v) by {}
                }
                false
            },
        }
    }
}

/// A price as a whole number of any size.
pub open spec fn as_int(a: Option<usize>) -> Option<int> {
    match a {
        Some(v) => Some(v as int),
        None => None,
    }
}

/// The lower of two prices, where there are any.
fn lower_of(a: Option<usize>, b: Option<usize>) -> (r: Option<usize>)
    ensures
        as_int(r) == lower(as_int(a), as_int(b)),
{
    match (a, b) {
        (Some(x), Some(y)) => if y < x {
            Some(y)
        } else {
            Some(x)
        },
        (Some(x), None) => Some(x),
        (None, _) => b,
    }
}

impl Board {
    /// What the layers before layer `k` hold for `p`.
    fn price_before(
        &self,
        layers: &Vec<Vec<Option<usize>>>,
        s: &Point,
        hazards: &Vec<Point>,
        k: usize,
        p: &Point,
    ) -> (r: Option<usize>)
        requires
            self.wf(),
            layers_ok(self@, hazards@, *s, layers@),
            1 <= k <= layers.len() + 1,
        ensures
            as_int(r) == best(self@, hazards@, *s, (k - 1) as nat, *p),
    {
        if k == 1 {
            if *p == *s {
                Some(0)
            } else {
                None
            }
        } else {
            let layer = &layers[k - 2];
            assert(layer_is(self@, hazards@, *s, layer@, (k - 1) as nat));
            assert(cost_in(layer@, self@.bound, *p) == best(self@, hazards@, *s, (k - 1) as nat, *p));
            if self.is_inbounds(p) {
                layer[self.cell_of(p)]
            } else {
                None
            }
        }
    }

    /// The price of the routes of `k` steps that come to `c` from its
    /// neighbour in direction `d`.
    fn candidate(
        &self,
        table: &Vec<Option<usize>>,
        layers: &Vec<Vec<Option<usize>>>,
        s: &Point,
        hazards: &Vec<Point>,
        k: usize,
        c: &Point,
        d: Direction,
        cost: usize,
    ) -> (r: Option<usize>)
        requires
            self.wf(),
            ticks_ok(self@, *s, table@),
            layers_ok(self@, hazards@, *s, layers@),
            1 <= k <= layers.len() + 1,
            k <= cell_count(self@.bound),
            c.can_step(),
            cost <= HAZARD_STEP,
        ensures
            as_int(r) == via(
                best(self@, hazards@, *s, (k - 1) as nat, c.step(d)),
                enters(self@, *s, c.step(d), *c),
                cost as int,
            ),
    {
        let from = *c + d;
        match self.price_before(layers, s, hazards, k, &from) {
            Some(v) => {
                proof {
                    lemma_best_bounds(self@, hazards@, *s, (k - 1) as nat, from);
                    assert(v + cost <= HAZARD_STEP * k) by (nonlinear_arith)
                        requires
                            v <= HAZARD_STEP * (k - 1),
                            cost <= HAZARD_STEP,
                    ;
                    assert(HAZARD_STEP * k <= HAZARD_STEP * cell_count(self@.bound)) by (nonlinear_arith)
                        requires
                            k <= cell_count(self@.bound),
                    ;
                }
                if self.is_open(table, s, &from, c) {
                    Some(v + cost)
                } else {
                    None
                }
            },
            None => None,
        }
    }

    /// The least price of the routes of `k` steps to `c`.
    fn price_of(
        &self,
        table: &Vec<Option<usize>>,
        layers: &Vec<Vec<Option<usize>>>,
        s: &Point,
        hazards: &Vec<Point>,
        k: usize,
        c: &Point,
    ) -> (r: Option<usize>)
        requires
            self.wf(),
            ticks_ok(self@, *s, table@),
            layers_ok(self@, hazards@, *s, layers@),
            1 <= k <= layers.len() + 1,
            k <= cell_count(self@.bound),
            c.can_step(),
        ensures
            as_int(r) == best(self@, hazards@, *s, k as nat, *c),
    {
        let cost: usize = if holds(hazards, c) {
            HAZARD_STEP
        } else {
            1
        };
        let right = self.candidate(table, layers, s, hazards, k, c, Direction::Right, cost);
        let left = self.candidate(table, layers, s, hazards, k, c, Direction::Left, cost);
        let up = self.candidate(table, layers, s, hazards, k, c, Direction::Up, cost);
        let down = self.candidate(table, layers, s, hazards, k, c, Direction::Down, cost);
        lower_of(lower_of(lower_of(right, left), up), down)
    }

    /// The layer of the least prices of the routes of `k` steps.
    fn cost_round(
        &self,
        table: &Vec<Option<usize>>,
        layers: &Vec<Vec<Option<usize>>>,
        s: &Point,
        hazards: &Vec<Point>,
        k: usize,
    ) -> (next: Vec<Option<usize>>)
        requires
            self.wf(),
            ticks_ok(self@, *s, table@),
            layers_ok(self@, hazards@, *s, layers@),
            k == layers.len() + 1,
            k <= cell_count(self@.bound),
        ensures
            layer_is(self@, hazards@, *s, next@, k as nat),
    {
        let ghost b = self@;
        let ghost w = (b.bound.x + 1) as int;
        let mut next: Vec<Option<usize>> = Vec::new();
        let width = (self.bound.x + 1) as usize;
        let height = (self.bound.y + 1) as usize;
        let mut y: usize = 0;
        while y < height
            invariant
                y <= height,
                self.wf(),
                b == self@,
                ticks_ok(b, *s, table@),
                layers_ok(b, hazards@, *s, layers@),
                k == layers.len() + 1,
                k <= cell_count(b.bound),
                width == b.bound.x + 1,
                height == b.bound.y + 1,
                w == width,
                next.len() == y * width,
                forall|p: Point|
                    in_bounds(b.bound, p) && p.y < y ==> #[trigger] cost_in(next@, b.bound, p) == best(
                        b,
                        hazards@,
                        *s,
                        k as nat,
                        p,
                    ),
            decreases height - y,
        {
            let mut x: usize = 0;
            while x < width
                invariant
                    x <= width,
                    y < height,
                    self.wf(),
                    b == self@,
                    ticks_ok(b, *s, table@),
                    layers_ok(b, hazards@, *s, layers@),
                    k == layers.len() + 1,
                    k <= cell_count(b.bound),
                    width == b.bound.x + 1,
                    height == b.bound.y + 1,
                    w == width,
                    next.len() == y * width + x,
                    forall|p: Point|
                        in_bounds(b.bound, p) && (p.y < y || (p.y == y && p.x < x)) ==> #[trigger] cost_in(
                            next@,
                            b.bound,
                            p,
                        ) == best(b, hazards@, *s, k as nat, p),
                decreases width - x,
            {
                let p = Point { x: x as i32, y: y as i32 };
                proof {
                    lemma_cells(b.bound, p, p);
                }
                let value = self.price_of(table, layers, s, hazards, k, &p);
                let ghost before = next@;
                next.push(value);
                proof {
                    assert(cell_index(b.bound, p) == before.len());
                    assert forall|q: Point|
                        in_bounds(b.bound, q) && (q.y < y || (q.y == y && q.x < x + 1)) implies #[trigger] cost_in(
                        next@,
                        b.bound,
                        q,
                    ) == best(b, hazards@, *s, k as nat, q) by {
                        lemma_cells(b.bound, q, p);
                        if q != p {
                            let (qx, qy) = (q.x as int, q.y as int);
                            assert(0 <= qy * w + qx < y * w + x) by (nonlinear_arith)
                                requires
                                    0 <= qx < w,
                                    0 <= qy <= y,
                                    qy < y || qx < x,
                                    0 <= x <= w,
                            ;
                            assert(next@[cell_index(b.bound, q)] == before[cell_index(b.bound, q)]);
                            assert(cost_in(before, b.bound, q) == best(b, hazards@, *s, k as nat, q));
                        }
                    }
                }
                x += 1;
            }
            assert((y + 1) * width == y * width + width) by (nonlinear_arith);
            y += 1;
        }
        proof {
            assert(height * width == cell_count(b.bound)) by (nonlinear_arith)
                requires
                    width == b.bound.x + 1,
                    height == b.bound.y + 1,
                    cell_count(b.bound) == (b.bound.x + 1) * (b.bound.y + 1),
            ;
            assert forall|p: Point| #[trigger] cost_in(next@, b.bound, p) == best(
                b,
                hazards@,
                *s,
                k as nat,
                p,
            ) by {
                if !in_bounds(b.bound, p) {
                    lemma_best_bounds(b, hazards@, *s, k as nat, p);
                }
            }
        }
        next
    }

    /// The direction of the neighbour of `c` from which the cheapest route of
    /// `j` steps comes to `c`.
    fn step_back(
        &self,
        table: &Vec<Option<usize>>,
        layers: &Vec<Vec<Option<usize>>>,
        s: &Point,
        hazards: &Vec<Point>,
        j: usize,
        c: &Point,
        v: usize,
    ) -> (r: (Direction, usize))
        requires
            self.wf(),
            ticks_ok(self@, *s, table@),
            layers_ok(self@, hazards@, *s, layers@),
            1 <= j <= layers.len(),
            layers.len() <= cell_count(self@.bound),
            best(self@, hazards@, *s, j as nat, *c) == Some(v as int),
        ensures
            c.can_step(),
            r.1 == step_cost(hazards@, *c),
            r.1 <= v,
            best(self@, hazards@, *s, (j - 1) as nat, c.step(r.0)) == Some(v - r.1),
            enters(self@, *s, c.step(r.0), *c),
            c.step(r.0).manhattan(*c) == 1,
    {
        proof {
            lemma_best_bounds(self@, hazards@, *s, j as nat, *c);
        }
        let step: usize = if holds(hazards, c) {
            HAZARD_STEP
        } else {
            1
        };
        let right = self.candidate(table, layers, s, hazards, j, c, Direction::Right, step);
        let left = self.candidate(table, layers, s, hazards, j, c, Direction::Left, step);
        let up = self.candidate(table, layers, s, hazards, j, c, Direction::Up, step);
        let d = if right == Some(v) {
            Direction::Right
        } else if left == Some(v) {
            Direction::Left
        } else if up == Some(v) {
            Direction::Up
        } else {
            Direction::Down
        };
        proof {
            lemma_best_bounds(self@, hazards@, *s, (j - 1) as nat, c.step(d));
        }
        (d, step)
    }

    /// Follows the layers back from the end `e` of the cheapest route of `k`
    /// steps to the start.
    fn trace(
        &self,
        table: &Vec<Option<usize>>,
        layers: &Vec<Vec<Option<usize>>>,
        s: &Point,
        e: &Point,
        hazards: &Vec<Point>,
        cost: usize,
        k: usize,
    ) -> (path: Vec<Point>)
        requires
            self.wf(),
            ticks_ok(self@, *s, table@),
            layers_ok(self@, hazards@, *s, layers@),
            1 <= k <= layers.len(),
            layers.len() <= cell_count(self@.bound),
            best(self@, hazards@, *s, k as nat, *e) == Some(cost as int),
        ensures
            is_route(self@, *s, path@),
            route_end(*s, path@) == *e,
            route_cost(hazards@, path@) == cost,
    {
        let ghost b = self@;
        let mut path: Vec<Point> = Vec::new();
        let mut c = *e;
        let mut v = cost;
        let mut j = k;
        while j > 0
            invariant
                0 <= j <= k,
                self.wf(),
                b == self@,
                ticks_ok(b, *s, table@),
                layers_ok(b, hazards@, *s, layers@),
                k <= layers.len(),
                layers.len() <= cell_count(b.bound),
                best(b, hazards@, *s, j as nat, c) == Some(v as int),
                is_route_from(b, *s, c, path@),
                route_end(c, path@) == *e,
                route_cost(hazards@, path@) + v == cost,
            decreases j,
        {
            let (d, step) = self.step_back(table, layers, s, hazards, j, &c, v);
            let from = c + d;
            let ghost before = path@;
            proof {
                lemma_prepend(b, hazards@, *s, from, c, before);
            }
            path.insert(0, c);
            assert(path@ =~= seq![c] + before);
            c = from;
            v = v - step;
            j = j - 1;
        }
        path
    }

    /// The cheapest route from `s` to `e` and its price: the steps to take,
    /// the first one first, `e` last. A step costs 1, and 15 more onto a
    /// hazard. The route comes to no cell twice and not back to `s`. There
    /// is a result exactly when a route leads from `s` to `e`; from a
    /// point to itself the route has no step and costs nothing.
    pub fn astar(&self, s: Point, e: Point, hazards: &Vec<Point>) -> (r: Option<(usize, Path)>)
        requires
            self.wf(),
        ensures
            match r {
                Some((cost, path)) => {
                    &&& is_route(self@, s, path@)
                    &&& route_end(s, path@) == e
                    &&& cost == route_cost(hazards@, path@)
                    &&& is_least_cost(self@, hazards@, s, e, cost as int)
                    &&& path@.no_duplicates()
                    &&& !path@.contains(s)
                    &&& s == e ==> path@ == Seq::<Point>::empty()
                },
                None => s != e && no_route(self@, s, e),
            },
    {
        let ghost b = self@;
        if s == e {
            let path = Path::new();
            proof {
                assert(path@ =~= Seq::empty());
                lemma_route_to_itself(b, hazards@, s);
            }
            return Some((0, path));
        }
        let cells = self.cell_number();
        if !self.is_inbounds(&e) {
            proof {
                assert forall|r: Seq<Point>| !(#[trigger] is_route(b, s, r) && route_end(s, r) == e) by {
                    if is_route(b, s, r) && route_end(s, r) == e {
                        assert(step_ok(b, s, s, r, r.len() - 1));
                    }
                }
            }
            return None;
        }
        let table = self.find_ticks(&s);
        let mut layers: Vec<Vec<Option<usize>>> = Vec::new();
        let mut found: Option<(usize, usize)> = None;
        let mut k: usize = 1;
        let at = self.cell_of(&e);
        let mut limit: usize = cells;
        while k <= limit
            invariant
                1 <= k <= limit + 1,
                limit <= cells,
                found is None ==> limit == cells,
                found is Some ==> limit == cells || limit == found_cost(found),
                self.wf(),
                b == self@,
                s != e,
                in_bounds(b.bound, e),
                at == cell_index(b.bound, e),
                at < cells,
                cells == cell_count(b.bound),
                ticks_ok(b, s, table@),
                layers.len() == k - 1,
                layers_ok(b, hazards@, s, layers@),
                found_ok(b, hazards@, s, e, found, k - 1),
            decreases limit + 1 - k,
        {
            let layer = self.cost_round(&table, &layers, &s, hazards, k);
            let value = layer[at];
            proof {
                assert(cost_in(layer@, b.bound, e) == best(b, hazards@, s, k as nat, e));
            }
            let ghost before = found;
            proof {
                lemma_best_bounds(b, hazards@, s, k as nat, e);
                lemma_found_next(b, hazards@, s, e, before, value, k as int);
            }
            match (found, value) {
                (None, Some(c)) => {
                    found = Some((c, k));
                    if c < limit {
                        limit = c;
                    }
                },
                (Some((c0, _)), Some(c)) => {
                    if c < c0 {
                        found = Some((c, k));
                        if c < limit {
                            limit = c;
                        }
                    }
                },
                _ => {},
            }
            assert(found == taken(before, value, k as int));
            let ghost old_layers = layers@;
            layers.push(layer);
            proof {
                assert forall|j: int| 0 <= j < layers@.len() implies layer_is(
                    b,
                    hazards@,
                    s,
                    (#[trigger] layers@[j])@,
                    (j + 1) as nat,
                ) by {
                    if j < old_layers.len() {
                        assert(layers@[j] == old_layers[j]);
                    }
                }
            }
            k = k + 1;
        }
        proof {
            lemma_found(b, hazards@, s, e, found, k - 1);
        }
        match found {
            None => None,
            Some((cost, steps)) => {
                let nodes = self.trace(&table, &layers, &s, &e, hazards, cost, steps);
                proof {
                    assert(is_least_cost(b, hazards@, s, e, cost as int));
                    lemma_cheapest_is_simple(b, hazards@, s, e, nodes@);
                }
                Some((cost, Path::from_vec(nodes)))
            },
        }
    }
}

} // verus!
