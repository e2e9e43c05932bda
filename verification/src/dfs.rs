//! The search for room to escape to: is there a way of a given length that
//! visits no cell twice?

use vstd::prelude::*;
use crate::direction::Direction;
use crate::grid::{lemma_on_board_can_step, lemma_points_fit, GameGrid, GridModel, GridObject};
use crate::point::Point;
use crate::seqs::holds;

verus! {

/// What a step onto `p` counts beyond the step itself: food counts for one
/// cell more.
pub open spec fn food_at(g: GridModel, p: Point) -> int {
    if g.value(p) == GridObject::Food {
        1
    } else {
        0
    }
}

/// The price of the step onto `p`.
pub open spec fn escape_step(g: GridModel, p: Point) -> int {
    match g.value(p) {
        GridObject::Empty => 1,
        GridObject::Food => 1,
        GridObject::Hazard => 15,
        _ => 101,
    }
}

/// How many cells of `way` hold food.
pub open spec fn food_on(g: GridModel, way: Seq<Point>) -> int
    decreases way.len(),
{
    if way.len() == 0 {
        0
    } else {
        food_at(g, way[0]) + food_on(g, way.skip(1))
    }
}

/// The price of `way`.
pub open spec fn way_cost(g: GridModel, way: Seq<Point>) -> int
    decreases way.len(),
{
    if way.len() == 0 {
        0
    } else {
        escape_step(g, way[0]) + way_cost(g, way.skip(1))
    }
}

/// `way` leads on from `from` in single steps over cells that a path may
/// lead over, visits none of them twice and none that was `visited`.
pub open spec fn is_escape(g: GridModel, visited: Seq<Point>, from: Point, way: Seq<Point>) -> bool {
    &&& way.len() >= 1
    &&& from.manhattan(way[0]) == 1
    &&& way.no_duplicates()
    &&& forall|k: int|
        0 <= k < way.len() ==> g.accessible(#[trigger] way[k]) && !visited.contains(way[k])
    &&& forall|k: int| 1 <= k < way.len() ==> way[k - 1].manhattan(#[trigger] way[k]) == 1
}

/// Whether `way` gives the room that is asked for: each of its cells
/// counts one, and each food on it counts one more.
pub open spec fn is_enough(g: GridModel, need: int, way: Seq<Point>) -> bool {
    need - food_on(g, way) - way.len() <= 0
}

/// Whether some way on from `from` gives the room that is asked for.
pub open spec fn escapes(g: GridModel, visited: Seq<Point>, from: Point, need: int) -> bool {
    exists|way: Seq<Point>| #[trigger] is_escape(g, visited, from, way) && is_enough(g, need, way)
}

/// The points are cells that a path may lead over, no two the same.
pub open spec fn fresh(g: GridModel, pts: Seq<Point>) -> bool {
    &&& pts.no_duplicates()
    &&& forall|k: int| 0 <= k < pts.len() ==> g.accessible(#[trigger] pts[k])
}

proof fn lemma_fresh_fits(g: GridModel, pts: Seq<Point>)
    requires
        g.wf(),
        fresh(g, pts),
    ensures
        pts.len() <= g.cells.len(),
{
    assert forall|k: int| 0 <= k < pts.len() implies g.in_bounds(#[trigger] pts[k]) by {
        assert(g.accessible(pts[k]));
    }
    lemma_points_fit(g, pts);
}

proof fn lemma_way_cost_bound(g: GridModel, way: Seq<Point>)
    requires
        forall|k: int| 0 <= k < way.len() ==> g.accessible(#[trigger] way[k]),
    ensures
        0 <= way_cost(g, way) <= 15 * way.len(),
        0 <= food_on(g, way) <= way.len(),
    decreases way.len(),
{
    if way.len() > 0 {
        let rest = way.skip(1);
        assert forall|k: int| 0 <= k < rest.len() implies g.accessible(#[trigger] rest[k]) by {
            assert(rest[k] == way[k + 1]);
        }
        lemma_way_cost_bound(g, rest);
        assert(g.accessible(way[0]));
    }
}

/// A point at distance one is one of the four neighbours.
proof fn lemma_is_neighbour(p: Point, q: Point)
    requires
        p.can_step(),
        p.manhattan(q) == 1,
    ensures
        exists|j: int| 0 <= j < 4 && q == #[trigger] p.neighbours()[j],
{
    if q.x == p.x + 1 {
        assert(q == p.neighbours()[0]);
    } else if q.x == p.x - 1 {
        assert(q == p.neighbours()[1]);
    } else if q.y == p.y + 1 {
        assert(q == p.neighbours()[2]);
    } else {
        assert(q == p.neighbours()[3]);
    }
}

/// A way that begins with `n` and does not give enough room with `n`
/// alone goes on from `n` with a way that gives what is left to find.
proof fn lemma_escape_goes_on(
    g: GridModel,
    visited: Seq<Point>,
    from: Point,
    need: int,
    way: Seq<Point>,
)
    requires
        is_escape(g, visited, from, way),
        is_enough(g, need, way),
        need - food_at(g, way[0]) - 1 > 0,
    ensures
        is_escape(g, visited.push(way[0]), way[0], way.skip(1)),
        is_enough(g, need - food_at(g, way[0]) - 1, way.skip(1)),
{
    let rest = way.skip(1);
    let n = way[0];
    if way.len() == 1 {
        assert(rest.len() == 0);
        assert(food_on(g, rest) == 0);
    }
    assert(rest[0] == way[1]);
    assert forall|i: int, j: int| 0 <= i < rest.len() && 0 <= j < rest.len() && i != j implies rest[i]
        != rest[j] by {
        assert(way[i + 1] != way[j + 1]);
    }
    assert forall|k: int| 0 <= k < rest.len() implies g.accessible(#[trigger] rest[k])
        && !visited.push(n).contains(rest[k]) by {
        assert(rest[k] == way[k + 1]);
        assert(way[k + 1] != way[0]);
        if visited.push(n).contains(rest[k]) {
            let i = choose|i: int| 0 <= i < visited.push(n).len() && visited.push(n)[i] == rest[k];
            if i < visited.len() {
                assert(visited[i] == rest[k]);
            }
        }
    }
    assert forall|k: int| 1 <= k < rest.len() implies rest[k - 1].manhattan(#[trigger] rest[k])
        == 1 by {
        assert(rest[k] == way[k + 1]);
        assert(rest[k - 1] == way[k]);
    }
}

/// A way on from `n` goes on from the cell before it when `n` is put in
/// front.
proof fn lemma_escape_with_first(
    g: GridModel,
    visited: Seq<Point>,
    from: Point,
    n: Point,
    rest: Seq<Point>,
)
    requires
        from.manhattan(n) == 1,
        g.accessible(n),
        !visited.contains(n),
        rest.len() == 0 || is_escape(g, visited.push(n), n, rest),
    ensures
        is_escape(g, visited, from, seq![n] + rest),
        food_on(g, seq![n] + rest) == food_at(g, n) + food_on(g, rest),
        way_cost(g, seq![n] + rest) == escape_step(g, n) + way_cost(g, rest),
        visited + (seq![n] + rest) == visited.push(n) + rest,
{
    let way = seq![n] + rest;
    assert(way.skip(1) =~= rest);
    assert(visited + way =~= visited.push(n) + rest);
    assert forall|k: int| 0 <= k < way.len() implies g.accessible(#[trigger] way[k])
        && !visited.contains(way[k]) by {
        if k > 0 {
            assert(way[k] == rest[k - 1]);
            assert(!visited.push(n).contains(rest[k - 1]));
            if visited.contains(way[k]) {
                let i = choose|i: int| 0 <= i < visited.len() && visited[i] == way[k];
                assert(visited.push(n)[i] == way[k]);
            }
        }
    }
    assert forall|i: int, j: int| 0 <= i < way.len() && 0 <= j < way.len() && i != j implies way[i]
        != way[j] by {
        if i > 0 && j > 0 {
            assert(rest[i - 1] != rest[j - 1]);
        } else {
            let o = if i > 0 {
                i
            } else {
                j
            };
            assert(way[o] == rest[o - 1]);
            assert(!visited.push(n).contains(rest[o - 1]));
            assert(visited.push(n)[visited.len() as int] == n);
        }
    }
    assert forall|k: int| 1 <= k < way.len() implies way[k - 1].manhattan(#[trigger] way[k])
        == 1 by {
        if k > 1 {
            assert(way[k] == rest[k - 1] && way[k - 1] == rest[k - 2]);
        } else {
            assert(way[1] == rest[0]);
        }
    }
}

/// The search for room to escape to.
pub struct Dfs {
    solution: Option<Vec<Point>>,
    cost: u64,
    length: usize,
}

impl Dfs {
    /// The cells that the search stands on, in the order in which it went.
    pub closed spec fn path(&self) -> Seq<Point> {
        match self.solution {
            Some(v) => v@,
            None => Seq::empty(),
        }
    }

    /// Whether the search has ever taken a step.
    pub closed spec fn has_path(&self) -> bool {
        self.solution is Some
    }

    /// The price of the way that was found.
    pub closed spec fn cost(&self) -> int {
        self.cost as int
    }

    /// The length of the way that was found.
    pub closed spec fn length(&self) -> int {
        self.length as int
    }

    pub fn new() -> (d: Dfs)
        ensures
            d.path() == Seq::<Point>::empty(),
            !d.has_path(),
            d.cost() == 0,
            d.length() == 0,
    {
        Dfs { solution: None, cost: 0, length: 0 }
    }

    /// The cells of the way that was found.
    pub fn get_path(&self) -> (path: Vec<Point>)
        requires
            self.has_path(),
        ensures
            path@ == self.path(),
    {
        match &self.solution {
            Some(v) => {
                let p = v.clone();
                assert(p@ =~= v@);
                p
            },
            None => Vec::new(),
        }
    }

    pub fn get_length(&self) -> (n: usize)
        ensures
            n == self.length(),
    {
        self.length
    }

    pub fn get_cost(&self) -> (c: u64)
        ensures
            c == self.cost(),
    {
        self.cost
    }

    /// Whether `n` is none of the cells that the search stands on.
    fn is_new(&self, n: &Point) -> (b: bool)
        ensures
            b == !self.path().contains(*n),
    {
        match &self.solution {
            Some(v) => !holds(v, n),
            None => true,
        }
    }

    fn push(&mut self, n: Point)
        ensures
            final(self).path() == old(self).path().push(n),
            final(self).cost() == old(self).cost(),
            final(self).length() == old(self).length(),
            final(self).has_path(),
    {
        match self.solution.take() {
            Some(mut v) => {
                v.push(n);
                self.solution = Some(v);
            },
            None => {
                let mut v = Vec::new();
                v.push(n);
                self.solution = Some(v);
            },
        }
    }

    fn pop(&mut self)
        requires
            old(self).path().len() > 0,
        ensures
            final(self).path() == old(self).path().drop_last(),
            final(self).cost() == old(self).cost(),
            final(self).length() == old(self).length(),
            final(self).has_path() == old(self).has_path(),
    {
        match self.solution.take() {
            Some(mut v) => {
                v.pop();
                self.solution = Some(v);
            },
            None => {},
        }
    }

    /// Books the step onto the last cell of the way that was found.
    fn book(&mut self, step: u64)
        requires
            old(self).cost() + step <= u64::MAX,
        ensures
            final(self).path() == old(self).path(),
            final(self).cost() == old(self).cost() + step,
            final(self).length() == old(self).path().len(),
            final(self).has_path() == old(self).has_path(),
    {
        self.cost = self.cost + step;
        self.length = match &self.solution {
            Some(v) => v.len(),
            None => 0,
        };
    }

    /// Looks for a way on from `start` that gives `atleast` cells of room.
    /// All cells after the first `base` of the present way were added on
    /// the search that is under way.
    fn explore(&mut self, start: &Point, grid: &GameGrid, atleast: i32, Ghost(base): Ghost<int>) -> (found:
        bool)
        requires
            grid.wf(),
            grid@.cells.len() < i32::MAX,
            start.can_step(),
            0 <= base <= old(self).path().len(),
            fresh(grid@, old(self).path().skip(base)),
            old(self).cost() + 15 * (grid@.cells.len() - (old(self).path().len() - base))
                <= u64::MAX,
        ensures
            found <==> escapes(grid@, old(self).path(), *start, atleast as int),
            found ==> exists|way: Seq<Point>| #[trigger]
                is_escape(grid@, old(self).path(), *start, way) && is_enough(
                    grid@,
                    atleast as int,
                    way,
                ) && final(self).path() == old(self).path() + way && final(self).cost() == old(
                    self,
                ).cost() + way_cost(grid@, way) && final(self).length() == final(self).path().len(),
            !found ==> final(self).path() == old(self).path() && final(self).cost() == old(
                self,
            ).cost() && final(self).length() == old(self).length(),
            final(self).has_path() || !old(self).has_path(),
            found ==> final(self).has_path(),
        decreases grid@.cells.len() - (old(self).path().len() - base),
    {
        let ghost g = grid@;
        let ghost visited = self.path();
        let ghost added = visited.skip(base);
        proof {
            lemma_fresh_fits(g, added);
        }
        let ngbs = start.get_neighbours();
        let mut k: usize = 0;
        while k < 4
            invariant
                k <= 4,
                grid.wf(),
                g == grid@,
                g.cells.len() < i32::MAX,
                start.can_step(),
                ngbs@ == start.neighbours(),
                visited == old(self).path(),
                added == visited.skip(base),
                0 <= base <= visited.len(),
                fresh(g, added),
                added.len() <= g.cells.len(),
                self.path() == visited,
                self.cost() == old(self).cost(),
                self.length() == old(self).length(),
                self.has_path() || !old(self).has_path(),
                self.cost() + 15 * (g.cells.len() - added.len()) <= u64::MAX,
                forall|way: Seq<Point>, j: int|
                    0 <= j < k && #[trigger] is_escape(g, visited, *start, way) && way[0]
                        == #[trigger] ngbs@[j] ==> !is_enough(g, atleast as int, way),
            decreases 4 - k,
        {
            let n = ngbs[k];
            let mut tried_in_vain = false;
            if grid.is_accessible(&n) && self.is_new(&n) {
                self.push(n);
                let value = grid.get_value(&n);
                let step: u64 = match value {
                    GridObject::Empty => 1,
                    GridObject::Food => 1,
                    GridObject::Hazard => 15,
                    _ => 101,
                };
                let need: i64 = if value == GridObject::Food {
                    atleast as i64 - 1
                } else {
                    atleast as i64
                };
                proof {
                    assert(start.manhattan(n) == 1);
                    assert(self.path().skip(base) =~= added.push(n));
                    assert forall|i: int, j: int|
                        0 <= i < added.push(n).len() && 0 <= j < added.push(n).len() && i
                            != j implies added.push(n)[i] != added.push(n)[j] by {
                        let o = if i < j {
                            i
                        } else {
                            j
                        };
                        if i < added.len() && j < added.len() {
                            assert(added[i] != added[j]);
                        } else {
                            assert(added[o] == visited[base + o]);
                        }
                    }
                    assert(fresh(g, added.push(n)));
                    lemma_fresh_fits(g, added.push(n));
                    lemma_on_board_can_step(g, n);
                }
                if need - 1 <= 0 {
                    self.book(step);
                    proof {
                        let way = seq![n];
                        lemma_escape_with_first(g, visited, *start, n, Seq::empty());
                        assert(seq![n] + Seq::<Point>::empty() =~= way);
                        assert(way.skip(1) =~= Seq::<Point>::empty());
                        assert(food_on(g, Seq::<Point>::empty()) == 0);
                        assert(way_cost(g, Seq::<Point>::empty()) == 0);
                        assert(visited + way =~= visited.push(n));
                        assert(is_escape(g, visited, *start, way) && is_enough(
                            g,
                            atleast as int,
                            way,
                        ));
                    }
                    return true;
                } else {
                    let ghost mid = self.path();
                    if self.explore(&n, grid, (need - 1) as i32, Ghost(base)) {
                        proof {
                            let rest = choose|way: Seq<Point>| #[trigger]
                                is_escape(g, mid, n, way) && is_enough(g, need - 1, way)
                                    && self.path() == mid + way && self.cost() == old(self).cost()
                                    + way_cost(g, way) && self.length() == self.path().len();
                            lemma_escape_with_first(g, visited, *start, n, rest);
                            let way = seq![n] + rest;
                            assert forall|i: int, j: int|
                                0 <= i < (added + way).len() && 0 <= j < (added + way).len() && i
                                    != j implies (added + way)[i] != (added + way)[j] by {
                                if i < added.len() && j < added.len() {
                                    assert(added[i] != added[j]);
                                } else if i >= added.len() && j >= added.len() {
                                    assert(way[i - added.len()] != way[j - added.len()]);
                                } else {
                                    let (o, w) = if i < j {
                                        (i, j)
                                    } else {
                                        (j, i)
                                    };
                                    assert(added[o] == visited[base + o]);
                                    assert(!visited.contains(way[w - added.len()]));
                                }
                            }
                            assert(fresh(g, added + way));
                            lemma_fresh_fits(g, added + way);
                            lemma_way_cost_bound(g, way);
                            assert(is_escape(g, visited, *start, way) && is_enough(
                                g,
                                atleast as int,
                                way,
                            ));
                        }
                        self.book(step);
                        return true;
                    } else {
                        self.pop();
                        assert(self.path() =~= visited);
                        tried_in_vain = true;
                    }
                }
                proof {
                    assert forall|way: Seq<Point>|
                        #[trigger] is_escape(g, visited, *start, way) && way[0]
                            == n implies !is_enough(g, atleast as int, way) by {
                        if is_enough(g, atleast as int, way) {
                            lemma_escape_goes_on(g, visited, *start, atleast as int, way);
                            assert(escapes(g, visited.push(n), n, need - 1));
                        }
                    }
                }
            } else {
                proof {
                    assert forall|way: Seq<Point>|
                        #[trigger] is_escape(g, visited, *start, way) && way[0]
                            == n implies false by {
                        assert(g.accessible(way[0]) && !visited.contains(way[0]));
                    }
                }
            }
            k += 1;
        }
        proof {
            if escapes(g, visited, *start, atleast as int) {
                let way = choose|way: Seq<Point>| #[trigger]
                    is_escape(g, visited, *start, way) && is_enough(g, atleast as int, way);
                lemma_is_neighbour(*start, way[0]);
                let j = choose|j: int| 0 <= j < 4 && way[0] == #[trigger] start.neighbours()[j];
                assert(way[0] == ngbs@[j]);
            }
        }
        false
    }

    /// Whether the snake finds room to escape to: a way on from `start` over
    /// `atleast` cells that a path may lead over, none of them twice and
    /// none that the search stands on already. Each food on the way counts
    /// for one cell more. Where room is found, the way is added to the
    /// cells that the search stands on, and its price is booked. No room at
    /// all is found at once, wherever the start lies, with nothing added.
    pub fn get_atleast_len(&mut self, start: &Point, grid: &GameGrid, atleast: i32) -> (found: bool)
        requires
            grid.wf(),
            atleast > 0 ==> grid@.cells.len() < i32::MAX && start.can_step() && old(self).cost() + 15
                * grid@.cells.len() <= u64::MAX,
        ensures
            found <==> atleast <= 0 || escapes(grid@, old(self).path(), *start, atleast as int),
            atleast <= 0 ==> *final(self) == *old(self),
            found && atleast > 0 ==> final(self).has_path(),
            found && atleast > 0 ==> exists|way: Seq<Point>| #[trigger]
                is_escape(grid@, old(self).path(), *start, way) && is_enough(
                    grid@,
                    atleast as int,
                    way,
                ) && final(self).path() == old(self).path() + way && final(self).cost() == old(
                    self,
                ).cost() + way_cost(grid@, way) && final(self).length() == final(self).path().len(),
            !found ==> final(self).path() == old(self).path() && final(self).cost() == old(
                self,
            ).cost() && final(self).length() == old(self).length(),
    {
        if atleast <= 0 {
            return true;
        }
        let ghost base = self.path().len() as int;
        assert(self.path().skip(base) =~= Seq::<Point>::empty());
        self.explore(start, grid, atleast, Ghost(base))
    }
}

} // verus!
