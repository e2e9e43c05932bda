//! The room that a snake commands: the cells that it can get to, the
//! nearer ones first.

use vstd::prelude::*;
use crate::board::{in_bounds, Board, BoardModel};
use crate::direction::{all_directions, Direction};
use crate::grid::{lemma_points_fit, GridModel};
use crate::point::Point;
use crate::route::{cell_count, cell_index, free, is_free_walk, lemma_adjacent_is_step, lemma_cells};
use crate::seqs::holds;

verus! {

/// Whether free cells lead from `s` to `p` in exactly `n` steps.
pub open spec fn steps_to(b: BoardModel, s: Point, p: Point, n: int) -> bool {
    exists|walk: Seq<Point>| #[trigger] is_free_walk(b, walk, s, p) && walk.len() == n + 1
}

/// Whether free cells lead from `s` to `p` in one step or more.
pub open spec fn in_reach(b: BoardModel, s: Point, p: Point) -> bool {
    exists|n: int| n >= 1 && #[trigger] steps_to(b, s, p, n)
}

/// `n` is the least number of steps, one or more, in which free cells lead
/// from `s` to `p`.
pub open spec fn is_distance(b: BoardModel, s: Point, p: Point, n: int) -> bool {
    &&& n >= 1
    &&& steps_to(b, s, p, n)
    &&& forall|m: int| 1 <= m < n ==> !#[trigger] steps_to(b, s, p, m)
}

/// `cells` holds the cells that free cells lead to from `s`, each once.
pub open spec fn is_reach(b: BoardModel, s: Point, cells: Seq<Point>) -> bool {
    &&& cells.no_duplicates()
    &&& forall|p: Point| cells.contains(p) <==> in_reach(b, s, p)
}

/// `dists` holds the distance of each of `cells` from `s`, and no cell comes
/// before a nearer one.
pub open spec fn nearer_first(b: BoardModel, s: Point, cells: Seq<Point>, dists: Seq<int>) -> bool {
    &&& dists.len() == cells.len()
    &&& forall|k: int| 0 <= k < cells.len() ==> is_distance(b, s, #[trigger] cells[k], dists[k])
    &&& forall|i: int, j: int| 0 <= i <= j < dists.len() ==> #[trigger] dists[i] <= #[trigger] dists[j]
}

/// `cells` is what a flood from `s` finds: the cells in reach, each once,
/// the nearer ones first.
pub open spec fn is_flood(b: BoardModel, s: Point, cells: Seq<Point>) -> bool {
    is_reach(b, s, cells) && exists|dists: Seq<int>| #[trigger] nearer_first(b, s, cells, dists)
}

/// How many of the first `n` cells are no hazards.
pub open spec fn safe_count(cells: Seq<Point>, hazards: Seq<Point>, n: int) -> int
    decreases n,
{
    if n <= 0 {
        0
    } else {
        safe_count(cells, hazards, n - 1) + if hazards.contains(cells[n - 1]) {
            0int
        } else {
            1int
        }
    }
}

/// The first of the first `n` cells that holds food.
pub open spec fn first_food(cells: Seq<Point>, food: Seq<Point>, n: int) -> Option<Point>
    decreases n,
{
    if n <= 0 {
        None
    } else {
        match first_food(cells, food, n - 1) {
            Some(f) => Some(f),
            None => if food.contains(cells[n - 1]) {
                Some(cells[n - 1])
            } else {
                None
            },
        }
    }
}

/// The room of one snake.
#[derive(Clone, Copy, Debug, PartialEq, Eq, Structural)]
pub struct Area {
    /// The cells in reach that are no hazards.
    pub safe: usize,
    /// The cells in reach that are hazards.
    pub hazardous: usize,
    /// The nearest food in reach: the one that the flood came to first.
    pub food: Option<Point>,
}

/// `area` is what the cells in reach add up to.
pub open spec fn is_area(cells: Seq<Point>, hazards: Seq<Point>, food: Seq<Point>, area: Area) -> bool {
    &&& area.safe == safe_count(cells, hazards, cells.len() as int)
    &&& area.safe + area.hazardous == cells.len()
    &&& area.food == first_food(cells, food, cells.len() as int)
}

/// `area` is the room of a snake with its head on `s`.
pub open spec fn is_area_of(b: BoardModel, s: Point, hazards: Seq<Point>, area: Area) -> bool {
    exists|cells: Seq<Point>| #[trigger] is_flood(b, s, cells) && is_area(cells, hazards, b.food, area)
}

/// Where the first food of a list is found: at an index before which no
/// cell holds food.
proof fn lemma_first_food_index(cells: Seq<Point>, food: Seq<Point>, n: int)
    requires
        0 <= n <= cells.len(),
    ensures
        match first_food(cells, food, n) {
            Some(f) => exists|k: int|
                0 <= k < n && #[trigger] cells[k] == f && food.contains(f) && forall|j: int|
                    0 <= j < k ==> !food.contains(#[trigger] cells[j]),
            None => forall|j: int| 0 <= j < n ==> !food.contains(#[trigger] cells[j]),
        },
    decreases n,
{
    if n > 0 {
        lemma_first_food_index(cells, food, n - 1);
        match first_food(cells, food, n - 1) {
            Some(f) => {
                let k = choose|k: int|
                    0 <= k < n - 1 && #[trigger] cells[k] == f && food.contains(f) && forall|j: int|
                        0 <= j < k ==> !food.contains(#[trigger] cells[j]);
                assert(0 <= k < n && cells[k] == f);
            },
            None => {
                if food.contains(cells[n - 1]) {
                    assert(cells[n - 1] == cells[n - 1]);
                }
            },
        }
    }
}

/// The food that a flood comes to first is the nearest: no food in reach
/// is nearer.
pub proof fn lemma_first_food_is_nearest(
    b: BoardModel,
    s: Point,
    cells: Seq<Point>,
    food: Seq<Point>,
    f: Point,
    other: Point,
    n: int,
    m: int,
)
    requires
        is_flood(b, s, cells),
        first_food(cells, food, cells.len() as int) == Some(f),
        food.contains(other),
        is_distance(b, s, f, n),
        is_distance(b, s, other, m),
    ensures
        n <= m,
{
    let dists = choose|dists: Seq<int>| #[trigger] nearer_first(b, s, cells, dists);
    lemma_first_food_index(cells, food, cells.len() as int);
    let k = choose|k: int|
        0 <= k < cells.len() && #[trigger] cells[k] == f && food.contains(f) && forall|j: int|
            0 <= j < k ==> !food.contains(#[trigger] cells[j]);
    assert(in_reach(b, s, other)) by {
        assert(steps_to(b, s, other, m));
    }
    assert(cells.contains(other));
    let j = choose|j: int| 0 <= j < cells.len() && cells[j] == other;
    assert(is_distance(b, s, cells[k], dists[k]));
    assert(is_distance(b, s, cells[j], dists[j]));
    lemma_distance_is_unique(b, s, f, n, dists[k]);
    lemma_distance_is_unique(b, s, other, m, dists[j]);
    if j < k {
        assert(!food.contains(cells[j]));
    }
    assert(dists[k] <= dists[j]);
}

/// A cell has one distance.
pub proof fn lemma_distance_is_unique(b: BoardModel, s: Point, p: Point, n: int, m: int)
    requires
        is_distance(b, s, p, n),
        is_distance(b, s, p, m),
    ensures
        n == m,
{
    if n < m {
        assert(steps_to(b, s, p, n));
    } else if m < n {
        assert(steps_to(b, s, p, m));
    }
}

/// Whether `x` was found at a place of no more than `bound` steps.
pub open spec fn found_within(found: Seq<Point>, labels: Seq<int>, x: Point, bound: int) -> bool {
    exists|j: int| 0 <= j < found.len() && #[trigger] found[j] == x && labels[j] <= bound
}

/// The number of steps of the cell whose neighbours are looked at; nothing
/// that was found is more than one step farther.
pub open spec fn level(labels: Seq<int>, done: int, start_done: bool) -> int {
    if !start_done {
        0
    } else if 0 <= done < labels.len() {
        labels[done]
    } else if labels.len() > 0 {
        labels.last()
    } else {
        0
    }
}

/// What holds while the flood spreads: the cells found so far are free cells,
/// each found once, marked, and found at the number of steps that `labels`
/// holds for it, in the order of these numbers; the start and the first
/// `done` cells have all their free neighbours found, no more than one
/// step farther.
#[verifier::opaque]
pub open spec fn flood_ok(
    b: BoardModel,
    s: Point,
    found: Seq<Point>,
    marks: Seq<bool>,
    labels: Seq<int>,
    done: int,
    start_done: bool,
) -> bool {
    &&& marks.len() == cell_count(b.bound)
    &&& found.no_duplicates()
    &&& labels.len() == found.len()
    &&& 0 <= done <= found.len()
    &&& forall|k: int|
        0 <= k < found.len() ==> free(b, #[trigger] found[k]) && labels[k] >= 1 && steps_to(
            b,
            s,
            found[k],
            labels[k],
        )
    &&& forall|p: Point|
        in_bounds(b.bound, p) ==> (#[trigger] marks[cell_index(b.bound, p)] <==> found.contains(p))
    &&& forall|i: int, j: int| 0 <= i <= j < labels.len() ==> #[trigger] labels[i] <= #[trigger] labels[j]
    &&& forall|k: int| 0 <= k < labels.len() ==> #[trigger] labels[k] <= level(labels, done, start_done) + 1
    &&& forall|k: int, d: Direction|
        0 <= k < done && free(b, #[trigger] found[k].step(d)) ==> found_within(
            found,
            labels,
            found[k].step(d),
            labels[k] + 1,
        )
    &&& start_done ==> forall|d: Direction|
        free(b, #[trigger] s.step(d)) ==> found_within(found, labels, s.step(d), 1)
}

proof fn lemma_found_fits(b: BoardModel, found: Seq<Point>)
    requires
        b.wf(),
        found.no_duplicates(),
        forall|k: int| 0 <= k < found.len() ==> in_bounds(b.bound, #[trigger] found[k]),
    ensures
        found.len() <= cell_count(b.bound),
{
    if found.len() > 0 {
        assert(in_bounds(b.bound, found[0]));
        let (w, h) = ((b.bound.x + 1) as nat, (b.bound.y + 1) as nat);
        let g = GridModel {
            height: h,
            width: w,
            cells: Seq::new((h * w) as nat, |i: int| crate::grid::GridObject::Empty),
            ignore_hazard: false,
        };
        assert(h * w == cell_count(b.bound)) by (nonlinear_arith)
            requires
                w == b.bound.x + 1,
                h == b.bound.y + 1,
                cell_count(b.bound) == (b.bound.x + 1) * (b.bound.y + 1),
        ;
        assert forall|k: int| 0 <= k < found.len() implies g.in_bounds(#[trigger] found[k]) by {
            assert(in_bounds(b.bound, found[k]));
        }
        lemma_points_fit(g, found);
    }
}

/// A walk that goes on by one free step is a walk of one step more.
proof fn lemma_walk_goes_on(b: BoardModel, s: Point, p: Point, n: Point, steps: int)
    requires
        steps == 0 ==> p == s,
        steps != 0 ==> steps_to(b, s, p, steps),
        steps >= 0,
        free(b, n),
        p.manhattan(n) == 1,
    ensures
        steps_to(b, s, n, steps + 1),
{
    if steps == 0 {
        let walk = seq![s, n];
        assert(is_free_walk(b, walk, s, n));
    } else {
        let before = choose|walk: Seq<Point>| #[trigger]
            is_free_walk(b, walk, s, p) && walk.len() == steps + 1;
        let walk = before.push(n);
        assert forall|k: int| 1 <= k < walk.len() implies free(b, #[trigger] walk[k]) && walk[k
            - 1].manhattan(walk[k]) == 1 by {
            if k < before.len() {
                assert(walk[k] == before[k] && walk[k - 1] == before[k - 1]);
            }
        }
        assert(is_free_walk(b, walk, s, n));
    }
}

/// What was found is still found, no farther, when one more cell is found.
proof fn lemma_found_within_stays(
    found: Seq<Point>,
    labels: Seq<int>,
    n: Point,
    l: int,
    x: Point,
    bound: int,
)
    requires
        found_within(found, labels, x, bound),
        labels.len() == found.len(),
    ensures
        found_within(found.push(n), labels.push(l), x, bound),
{
    let j = choose|j: int| 0 <= j < found.len() && #[trigger] found[j] == x && labels[j] <= bound;
    assert(found.push(n)[j] == x && labels.push(l)[j] <= bound);
}

/// Finding a free neighbour of the cell that is looked at, one step
/// farther, keeps the flood in order.
proof fn lemma_flood_add(
    b: BoardModel,
    s: Point,
    found: Seq<Point>,
    marks: Seq<bool>,
    labels: Seq<int>,
    done: int,
    start_done: bool,
    p: Point,
    n: Point,
)
    requires
        b.wf(),
        flood_ok(b, s, found, marks, labels, done, start_done),
        !start_done ==> p == s && done == 0,
        start_done ==> 0 <= done < found.len() && p == found[done],
        free(b, n),
        p.manhattan(n) == 1,
        !marks[cell_index(b.bound, n)],
    ensures
        flood_ok(
            b,
            s,
            found.push(n),
            marks.update(cell_index(b.bound, n), true),
            labels.push(level(labels, done, start_done) + 1),
            done,
            start_done,
        ),
        found_within(
            found.push(n),
            labels.push(level(labels, done, start_done) + 1),
            n,
            level(labels, done, start_done) + 1,
        ),
        0 <= cell_index(b.bound, n) < marks.len(),
{
    reveal(flood_ok);
    let lvl = level(labels, done, start_done);
    let found1 = found.push(n);
    let labels1 = labels.push(lvl + 1);
    let marks1 = marks.update(cell_index(b.bound, n), true);
    lemma_cells(b.bound, n, n);
    if start_done {
        assert(steps_to(b, s, found[done], labels[done]));
    }
    lemma_walk_goes_on(b, s, p, n, lvl);
    assert(!found.contains(n));
    assert(found1[found.len() as int] == n);
    assert(level(labels1, done, start_done) == lvl);
    assert forall|a: int, c: int|
        0 <= a < found1.len() && 0 <= c < found1.len() && a != c implies found1[a] != found1[c] by {
        if a < found.len() && c < found.len() {
            assert(found[a] != found[c]);
        } else {
            let o = if a < c {
                a
            } else {
                c
            };
            assert(found[o] == found1[o]);
            assert(found.contains(found[o]));
        }
    }
    assert forall|q: Point| in_bounds(b.bound, q) implies (#[trigger] marks1[cell_index(b.bound, q)]
        <==> found1.contains(q)) by {
        lemma_cells(b.bound, q, n);
        if q != n {
            if found.contains(q) {
                let a = choose|a: int| 0 <= a < found.len() && found[a] == q;
                assert(found1[a] == q);
            }
            if found1.contains(q) {
                let a = choose|a: int| 0 <= a < found1.len() && found1[a] == q;
                assert(found[a] == q);
            }
        }
    }
    assert forall|a: int| 0 <= a < found1.len() implies free(b, #[trigger] found1[a]) && labels1[a]
        >= 1 && steps_to(b, s, found1[a], labels1[a]) by {
        if a < found.len() {
            assert(found1[a] == found[a] && labels1[a] == labels[a]);
            assert(free(b, found[a]));
        }
    }
    assert forall|i: int, j: int| 0 <= i <= j < labels1.len() implies #[trigger] labels1[i]
        <= #[trigger] labels1[j] by {
        if j < labels.len() {
            assert(labels1[i] == labels[i] && labels1[j] == labels[j]);
        } else if i < labels.len() {
            assert(labels1[i] == labels[i]);
            assert(labels[i] <= lvl + 1);
        }
    }
    assert forall|k: int| 0 <= k < labels1.len() implies #[trigger] labels1[k] <= lvl + 1 by {
        if k < labels.len() {
            assert(labels1[k] == labels[k]);
            assert(labels[k] <= lvl + 1);
        }
    }
    assert forall|k: int, d: Direction|
        0 <= k < done && free(b, #[trigger] found1[k].step(d)) implies found_within(
        found1,
        labels1,
        found1[k].step(d),
        labels1[k] + 1,
    ) by {
        assert(found1[k] == found[k] && labels1[k] == labels[k]);
        assert(found_within(found, labels, found[k].step(d), labels[k] + 1));
        lemma_found_within_stays(found, labels, n, lvl + 1, found[k].step(d), labels[k] + 1);
    }
    if start_done {
        assert forall|d: Direction| free(b, #[trigger] s.step(d)) implies found_within(
            found1,
            labels1,
            s.step(d),
            1,
        ) by {
            lemma_found_within_stays(found, labels, n, lvl + 1, s.step(d), 1);
        }
    }
}

/// A free neighbour of the cell that is looked at that was found before was
/// found no more than one step farther.
proof fn lemma_flood_known(
    b: BoardModel,
    s: Point,
    found: Seq<Point>,
    marks: Seq<bool>,
    labels: Seq<int>,
    done: int,
    start_done: bool,
    n: Point,
)
    requires
        flood_ok(b, s, found, marks, labels, done, start_done),
        free(b, n),
        marks[cell_index(b.bound, n)],
    ensures
        found_within(found, labels, n, level(labels, done, start_done) + 1),
{
    reveal(flood_ok);
    assert(found.contains(n));
    let j = choose|j: int| 0 <= j < found.len() && found[j] == n;
    assert(labels[j] <= level(labels, done, start_done) + 1);
}

/// Once all neighbours of the cell that is looked at are found, the flood
/// goes on to the next cell.
proof fn lemma_flood_settle(
    b: BoardModel,
    s: Point,
    found: Seq<Point>,
    marks: Seq<bool>,
    labels: Seq<int>,
    done: int,
    start_done: bool,
    p: Point,
)
    requires
        b.wf(),
        flood_ok(b, s, found, marks, labels, done, start_done),
        !start_done ==> p == s && done == 0,
        start_done ==> 0 <= done < found.len() && p == found[done],
        forall|j: int|
            0 <= j < 4 && free(b, p.step(#[trigger] all_directions()[j])) ==> found_within(
                found,
                labels,
                p.step(all_directions()[j]),
                level(labels, done, start_done) + 1,
            ),
    ensures
        flood_ok(b, s, found, marks, labels, if start_done {
            done + 1
        } else {
            0
        }, true),
        found.len() <= cell_count(b.bound),
{
    reveal(flood_ok);
    let next = if start_done {
        done + 1
    } else {
        0
    };
    let lvl = level(labels, done, start_done);
    assert forall|d: Direction| free(b, #[trigger] p.step(d)) implies found_within(
        found,
        labels,
        p.step(d),
        lvl + 1,
    ) by {
        assert(all_directions()[d.index()] == d);
    }
    assert forall|k: int| 0 <= k < labels.len() implies #[trigger] labels[k] <= level(
        labels,
        next,
        true,
    ) + 1 by {
        assert(labels[k] <= lvl + 1);
        assert(labels[k] >= 1) by {
            assert(free(b, found[k]));
        }
        if start_done {
            if done + 1 < labels.len() {
                assert(labels[done] <= labels[done + 1]);
            } else {
                assert(labels[k] <= labels[labels.len() - 1]);
            }
        } else {
            assert(labels[0] >= 1) by {
                assert(free(b, found[0]));
            }
        }
    }
    assert forall|k: int, d: Direction|
        0 <= k < next && free(b, #[trigger] found[k].step(d)) implies found_within(
        found,
        labels,
        found[k].step(d),
        labels[k] + 1,
    ) by {
        if start_done && k == done {
            assert(found[k] == p);
        }
    }
    assert forall|k: int| 0 <= k < found.len() implies in_bounds(b.bound, #[trigger] found[k]) by {
        assert(free(b, found[k]));
    }
    lemma_found_fits(b, found);
}

proof fn lemma_walk_found(
    b: BoardModel,
    s: Point,
    found: Seq<Point>,
    marks: Seq<bool>,
    labels: Seq<int>,
    walk: Seq<Point>,
    k: int,
)
    requires
        b.wf(),
        s.can_step(),
        flood_ok(b, s, found, marks, labels, found.len() as int, true),
        walk.len() >= 2,
        walk[0] == s,
        forall|k: int|
            1 <= k < walk.len() ==> free(b, #[trigger] walk[k]) && walk[k - 1].manhattan(walk[k]) == 1,
        1 <= k < walk.len(),
    ensures
        found_within(found, labels, walk[k], k),
    decreases k,
{
    reveal(flood_ok);
    let p = walk[k - 1];
    let n = walk[k];
    assert(free(b, n));
    if k == 1 {
        lemma_adjacent_is_step(s, n);
        let d = choose|d: Direction| n == #[trigger] s.step(d);
        assert(free(b, s.step(d)));
    } else {
        lemma_walk_found(b, s, found, marks, labels, walk, k - 1);
        let i = choose|i: int| 0 <= i < found.len() && #[trigger] found[i] == p && labels[i] <= k - 1;
        assert(free(b, found[i]));
        lemma_adjacent_is_step(p, n);
        let d = choose|d: Direction| n == #[trigger] p.step(d);
        assert(free(b, found[i].step(d)));
        assert(found_within(found, labels, found[i].step(d), labels[i] + 1));
        let j = choose|j: int|
            0 <= j < found.len() && #[trigger] found[j] == n && labels[j] <= labels[i] + 1;
        assert(found[j] == n && labels[j] <= k);
    }
}

/// When all that was found has its free neighbours found, all in reach is
/// found, each cell at its distance.
proof fn lemma_flood_complete(
    b: BoardModel,
    s: Point,
    found: Seq<Point>,
    marks: Seq<bool>,
    labels: Seq<int>,
)
    requires
        b.wf(),
        s.can_step(),
        flood_ok(b, s, found, marks, labels, found.len() as int, true),
    ensures
        is_reach(b, s, found),
        nearer_first(b, s, found, labels),
{
    reveal(flood_ok);
    assert forall|p: Point, m: int| m >= 1 && #[trigger] steps_to(b, s, p, m) implies found_within(
        found,
        labels,
        p,
        m,
    ) by {
        let walk = choose|walk: Seq<Point>| #[trigger] is_free_walk(b, walk, s, p) && walk.len() == m + 1;
        lemma_walk_found(b, s, found, marks, labels, walk, m);
    }
    assert forall|p: Point| in_reach(b, s, p) implies found.contains(p) by {
        let m = choose|m: int| m >= 1 && #[trigger] steps_to(b, s, p, m);
        assert(found_within(found, labels, p, m));
    }
    assert forall|p: Point| found.contains(p) implies in_reach(b, s, p) by {
        let k = choose|k: int| 0 <= k < found.len() && found[k] == p;
        assert(free(b, found[k]));
        assert(steps_to(b, s, found[k], labels[k]));
    }
    assert forall|k: int| 0 <= k < found.len() implies is_distance(
        b,
        s,
        #[trigger] found[k],
        labels[k],
    ) by {
        assert(free(b, found[k]));
        assert forall|m: int| 1 <= m < labels[k] implies !#[trigger] steps_to(b, s, found[k], m) by {
            if steps_to(b, s, found[k], m) {
                assert(found_within(found, labels, found[k], m));
                let j = choose|j: int|
                    0 <= j < found.len() && #[trigger] found[j] == found[k] && labels[j] <= m;
                assert(j == k);
            }
        }
    }
}

impl Board {
    /// Whether `p` lies on the board under no snake.
    pub fn is_free(&self, p: &Point) -> (r: bool)
        ensures
            r == free(self@, *p),
    {
        if !self.is_inbounds(p) {
            return false;
        }
        let mut i: usize = 0;
        while i < self.snakes.len()
            invariant
                i <= self.snakes.len(),
                in_bounds(self@.bound, *p),
                forall|j: int| 0 <= j < i ==> !(#[trigger] self@.snakes[j]).body.contains(*p),
            decreases self.snakes.len() - i,
        {
            if holds(&self.snakes[i].body.nodes, p) {
                assert(self@.snakes[i as int].body.contains(*p));
                return false;
            }
            i += 1;
        }
        true
    }

    /// Looks at the neighbours of `p`: each free one that was not found yet
    /// is marked and added to what was found, one step farther than `p`.
    fn spread(
        &self,
        s: Point,
        p: Point,
        found: &mut Vec<Point>,
        marks: &mut Vec<bool>,
        Ghost(labels): Ghost<Seq<int>>,
        Ghost(done): Ghost<int>,
        Ghost(start_done): Ghost<bool>,
    ) -> (out: Ghost<Seq<int>>)
        requires
            self.wf(),
            s.can_step(),
            p.can_step(),
            !start_done ==> p == s && done == 0,
            start_done ==> 0 <= done < old(found)@.len() && p == old(found)@[done],
            flood_ok(self@, s, old(found)@, old(marks)@, labels, done, start_done),
        ensures
            flood_ok(self@, s, final(found)@, final(marks)@, out@, if start_done {
                done + 1
            } else {
                0
            }, true),
            final(found)@.len() >= old(found)@.len(),
            final(found)@.len() <= cell_count(self@.bound),
            forall|k: int| 0 <= k < old(found)@.len() ==> final(found)@[k] == old(found)@[k],
    {
        let ghost b = self@;
        let ghost mut labels = labels;
        let ghost lvl = level(labels, done, start_done);
        let all = Direction::iterator();
        let mut k: usize = 0;
        while k < 4
            invariant
                k <= 4,
                self.wf(),
                b == self@,
                s.can_step(),
                p.can_step(),
                all@ == all_directions(),
                !start_done ==> p == s && done == 0,
                start_done ==> 0 <= done < found@.len() && p == found@[done],
                flood_ok(b, s, found@, marks@, labels, done, start_done),
                lvl == level(labels, done, start_done),
                found@.len() >= old(found)@.len(),
                forall|k: int| 0 <= k < old(found)@.len() ==> found@[k] == old(found)@[k],
                forall|j: int|
                    0 <= j < k && free(b, p.step(#[trigger] all_directions()[j])) ==> found_within(
                        found@,
                        labels,
                        p.step(all_directions()[j]),
                        lvl + 1,
                    ),
            decreases 4 - k,
        {
            let n = p + all[k];
            if self.is_free(&n) {
                let i = self.cell_of(&n);
                proof {
                    reveal(flood_ok);
                }
                if !marks[i] {
                    let ghost found0 = found@;
                    let ghost labels0 = labels;
                    proof {
                        assert(p.manhattan(n) == 1);
                        lemma_flood_add(b, s, found@, marks@, labels, done, start_done, p, n);
                        labels = labels.push(lvl + 1);
                    }
                    marks[i] = true;
                    found.push(n);
                    proof {
                        assert forall|j: int|
                            0 <= j < k && free(
                                b,
                                p.step(#[trigger] all_directions()[j]),
                            ) implies found_within(
                            found@,
                            labels,
                            p.step(all_directions()[j]),
                            lvl + 1,
                        ) by {
                            lemma_found_within_stays(
                                found0,
                                labels0,
                                n,
                                lvl + 1,
                                p.step(all_directions()[j]),
                                lvl + 1,
                            );
                        }
                        if start_done {
                            assert(labels[done] == labels0[done]);
                        }
                    }
                } else {
                    proof {
                        lemma_flood_known(b, s, found@, marks@, labels, done, start_done, n);
                    }
                }
            }
            k += 1;
        }
        proof {
            lemma_flood_settle(b, s, found@, marks@, labels, done, start_done, p);
        }
        Ghost(labels)
    }

    /// The cells that the snake with its head on `s` can get to over free
    /// cells, each once, the nearer ones first.
    pub fn flood(&self, s: Point) -> (cells: Vec<Point>)
        requires
            self.wf(),
            s.can_step(),
        ensures
            is_flood(self@, s, cells@),
    {
        let ghost b = self@;
        let total = self.cell_number();
        let mut marks: Vec<bool> = Vec::new();
        let mut i: usize = 0;
        while i < total
            invariant
                i <= total,
                marks.len() == i,
                forall|j: int| 0 <= j < i ==> !marks@[j],
            decreases total - i,
        {
            marks.push(false);
            i += 1;
        }
        let mut found: Vec<Point> = Vec::new();
        proof {
            reveal(flood_ok);
            assert forall|p: Point| in_bounds(b.bound, p) implies (#[trigger] marks@[cell_index(
                b.bound,
                p,
            )] <==> found@.contains(p)) by {
                lemma_cells(b.bound, p, p);
            }
        }
        let Ghost(first) = self.spread(
            s,
            s,
            &mut found,
            &mut marks,
            Ghost(Seq::empty()),
            Ghost(0),
            Ghost(false),
        );
        let ghost mut labels = first;
        let mut done: usize = 0;
        while done < found.len()
            invariant
                self.wf(),
                b == self@,
                s.can_step(),
                done <= found.len(),
                found.len() <= cell_count(b.bound),
                flood_ok(b, s, found@, marks@, labels, done as int, true),
            decreases cell_count(b.bound) - done,
        {
            let p = found[done];
            proof {
                reveal(flood_ok);
                assert(free(b, found@[done as int]));
            }
            let Ghost(next) = self.spread(
                s,
                p,
                &mut found,
                &mut marks,
                Ghost(labels),
                Ghost(done as int),
                Ghost(true),
            );
            proof {
                labels = next;
            }
            done += 1;
        }
        proof {
            lemma_flood_complete(b, s, found@, marks@, labels);
        }
        found
    }

    /// For each snake the room that it commands: the cells that its head
    /// can get to over free cells, counted apart for hazards, and the
    /// nearest food among them.
    pub fn get_area(&self, hazards: &Vec<Point>) -> (areas: Vec<Area>)
        requires
            self.wf(),
        ensures
            areas.len() == self.snakes.len(),
            forall|i: int|
                0 <= i < areas.len() ==> is_area_of(
                    self@,
                    self@.snakes[i].head(),
                    hazards@,
                    #[trigger] areas[i],
                ),
    {
        let mut areas: Vec<Area> = Vec::new();
        let mut i: usize = 0;
        while i < self.snakes.len()
            invariant
                i <= self.snakes.len(),
                self.wf(),
                areas.len() == i,
                forall|j: int|
                    0 <= j < i ==> is_area_of(
                        self@,
                        self@.snakes[j].head(),
                        hazards@,
                        #[trigger] areas[j],
                    ),
            decreases self.snakes.len() - i,
        {
            assert(self@.snakes[i as int].wf() && self@.snakes[i as int].head().can_step());
            let head = self.snakes[i].body.nodes[0];
            let cells = self.flood(head);
            let mut safe: usize = 0;
            let mut hazardous: usize = 0;
            let mut food: Option<Point> = None;
            let mut k: usize = 0;
            while k < cells.len()
                invariant
                    k <= cells.len(),
                    safe == safe_count(cells@, hazards@, k as int),
                    safe + hazardous == k,
                    food == first_food(cells@, self@.food, k as int),
                decreases cells.len() - k,
            {
                if holds(hazards, &cells[k]) {
                    hazardous += 1;
                } else {
                    safe += 1;
                }
                if food.is_none() && holds(&self.food, &cells[k]) {
                    food = Some(cells[k]);
                }
                k += 1;
            }
            let area = Area { safe, hazardous, food };
            assert(is_flood(self@, self@.snakes[i as int].head(), cells@) && is_area(
                cells@,
                hazards@,
                self@.food,
                area,
            ));
            let ghost before = areas@;
            areas.push(area);
            assert forall|j: int| 0 <= j < i + 1 implies is_area_of(
                self@,
                self@.snakes[j].head(),
                hazards@,
                #[trigger] areas[j],
            ) by {
                if j < i {
                    assert(areas[j] == before[j]);
                }
            }
            i += 1;
        }
        areas
    }
}

} // verus!
