//! The search for a way on the grid index, guided by a heuristic.

use vstd::prelude::*;
use crate::direction::{all_directions, Direction};
use crate::grid::{lemma_on_board_can_step, lemma_points_fit, GameGrid, GridModel, GridObject};
use crate::heuristic::{Heuristic, HeuristicModel, VALUE_LIMIT};
use crate::point::Point;
use crate::queue::{Frontier, Ranked};
use crate::seqs::holds;

verus! {

/// The price of the step onto `p`.
pub open spec fn step_price(g: GridModel, p: Point) -> int {
    match g.value(p) {
        GridObject::Collisionchance(v) => v as int,
        GridObject::Hazard => 16,
        _ => 1,
    }
}

/// `trail` starts anywhere and goes on in single steps over cells that a
/// path may lead over.
pub open spec fn is_walk(g: GridModel, trail: Seq<Point>) -> bool {
    &&& trail.len() >= 1
    &&& forall|k: int|
        1 <= k < trail.len() ==> g.accessible(#[trigger] trail[k]) && trail[k - 1].manhattan(
            trail[k],
        ) == 1
}

/// The price of the first `n` points of a trail: the steps onto all of
/// them but the first.
pub open spec fn walk_price(g: GridModel, trail: Seq<Point>, n: int) -> int
    decreases n,
{
    if n <= 1 {
        0
    } else {
        walk_price(g, trail, n - 1) + step_price(g, trail[n - 1])
    }
}

/// Whether a walk leads from `start` to `end`.
pub open spec fn reachable(g: GridModel, start: Point, end: Point) -> bool {
    exists|trail: Seq<Point>| #[trigger] is_walk(g, trail) && trail[0] == start && trail.last() == end
}

/// What a node of the search is: the point it stands on, the points that led
/// there from the start on, and the price so far.
pub struct NodeModel {
    pub point: Point,
    pub parents: Seq<Point>,
    pub gscore: i32,
}

impl NodeModel {
    /// The way from the start to the point, both included.
    pub open spec fn trail(self) -> Seq<Point> {
        self.parents.push(self.point)
    }

    /// The way without the start: the steps to take.
    pub open spec fn steps(self) -> Seq<Point> {
        self.trail().skip(1)
    }

    /// The node stands at the end of a walk that visits no point twice, and
    /// knows its price.
    pub open spec fn wf(self, g: GridModel) -> bool {
        &&& is_walk(g, self.trail())
        &&& self.trail().no_duplicates()
        &&& self.gscore == walk_price(g, self.trail(), self.trail().len() as int)
    }

    pub open spec fn extended(self, child: Point, step: i32) -> NodeModel {
        NodeModel {
            point: child,
            parents: self.parents.push(self.point),
            gscore: (self.gscore + step) as i32,
        }
    }
}

/// Those of the first `k` neighbours of the node's point that a path may
/// lead over and that the node has not visited, each with the estimate for
/// the step.
pub open spec fn children_of(n: NodeModel, g: GridModel, h: HeuristicModel, k: int) -> Seq<
    (i64, Point),
>
    decreases k,
{
    if k <= 0 {
        Seq::empty()
    } else {
        let p = n.point.step(all_directions()[k - 1]);
        if g.accessible(p) && !n.parents.contains(p) {
            children_of(n, g, h, k - 1).push((h.value(n.point, p) as i64, p))
        } else {
            children_of(n, g, h, k - 1)
        }
    }
}

/// A node of the search.
#[derive(Debug)]
pub struct AstarNode {
    point: Point,
    parents: Vec<Point>,
    gscore: i32,
}

impl View for AstarNode {
    type V = NodeModel;

    closed spec fn view(&self) -> NodeModel {
        NodeModel { point: self.point, parents: self.parents@, gscore: self.gscore }
    }
}

impl Clone for AstarNode {
    fn clone(&self) -> (n: AstarNode)
        ensures
            n@ == self@,
    {
        let parents = self.parents.clone();
        assert(parents@ =~= self.parents@);
        AstarNode { point: self.point, parents, gscore: self.gscore }
    }
}

impl Ranked for AstarNode {
    /// The node of the least price goes first.
    open spec fn rank(&self) -> int {
        -(self@.gscore as int)
    }

    fn outranks(&self, other: &Self) -> (b: bool)
        ensures
            b == (self.rank() > other.rank()),
    {
        self.gscore < other.gscore
    }
}

impl AstarNode {
    /// The node at the start of a search.
    pub fn new(point: Point) -> (n: AstarNode)
        ensures
            n@ == (NodeModel { point, parents: Seq::empty(), gscore: 0 }),
    {
        AstarNode { point, parents: Vec::new(), gscore: 0 }
    }

    /// The neighbours that the search may go on to, each with the estimate
    /// of the heuristic for the step.
    pub fn get_children(&self, grid: &GameGrid, heur: &Heuristic) -> (result: Vec<(i64, Point)>)
        requires
            grid.wf(),
            heur.wf(),
            heur@.covers(self@.point),
            self@.point.can_step(),
        ensures
            result@ == children_of(self@, grid@, heur@, 4),
            forall|i: int|
                0 <= i < result.len() ==> -VALUE_LIMIT <= (#[trigger] result[i]).0 <= VALUE_LIMIT,
    {
        let mut result: Vec<(i64, Point)> = Vec::new();
        let neighbours = self.point.get_neighbours();
        let mut k: usize = 0;
        while k < 4
            invariant
                k <= 4,
                grid.wf(),
                heur.wf(),
                heur@.covers(self@.point),
                neighbours@ == self@.point.neighbours(),
                result@ == children_of(self@, grid@, heur@, k as int),
                forall|i: int|
                    0 <= i < result.len() ==> -VALUE_LIMIT <= (#[trigger] result[i]).0 <= VALUE_LIMIT,
            decreases 4 - k,
        {
            let p = neighbours[k];
            assert(p == self@.point.step(all_directions()[k as int]));
            if grid.is_accessible(&p) && !holds(&self.parents, &p) {
                result.push((heur.get_value(&self.point, &p), p));
            }
            k += 1;
        }
        result
    }

    pub fn is_end(&self, end: &Point) -> (b: bool)
        ensures
            b == (self@.point == *end),
    {
        self.point == *end
    }

    /// The way to the node's point without the start; empty for the node at
    /// the start.
    pub fn get_path(&self) -> (path: Vec<Point>)
        ensures
            path@ == self@.steps(),
    {
        let mut path: Vec<Point> = Vec::new();
        let mut i: usize = 1;
        while i < self.parents.len()
            invariant
                1 <= i,
                i <= self.parents.len() || self.parents.len() == 0,
                self.parents.len() > 0 ==> path@ == self.parents@.subrange(1, i as int),
                self.parents.len() == 0 ==> path@.len() == 0,
            decreases self.parents.len() - i,
        {
            path.push(self.parents[i]);
            assert(path@ =~= self.parents@.subrange(1, i + 1));
            i += 1;
        }
        if self.parents.len() > 0 {
            path.push(self.point);
        }
        assert(path@ =~= self@.steps());
        path
    }

    /// The node one step further, on `child`, its price raised by `step`.
    pub fn extend_with_child(&self, child: &Point, step: i32) -> (n: AstarNode)
        requires
            i32::MIN <= self@.gscore + step <= i32::MAX,
        ensures
            n@ == self@.extended(*child, step),
    {
        let mut new = self.clone();
        new.parents.push(self.point);
        new.point = *child;
        new.gscore = new.gscore + step;
        new
    }

    pub fn get_gscore(&self) -> (g: i32)
        ensures
            g == self@.gscore,
    {
        self.gscore
    }
}

/// The least estimate noted for `p`, if one was noted.
pub open spec fn noted(best: Seq<(Point, i64)>, p: Point) -> Option<i64>
    decreases best.len(),
{
    if best.len() == 0 {
        None
    } else if best.last().0 == p {
        Some(best.last().1)
    } else {
        noted(best.drop_last(), p)
    }
}

/// What the queue of a search is: the nodes that wait, and the least
/// estimate noted for each point that was reached.
pub struct QueueModel {
    pub heap: Seq<AstarNode>,
    pub best: Seq<(Point, i64)>,
}

/// The queue of a search: nodes ordered by price, and for each point that
/// was reached the least estimate it was reached with. No point is noted
/// twice.
pub struct AstarQueue {
    heap: Frontier<AstarNode>,
    min_paths: Vec<(Point, i64)>,
}

impl View for AstarQueue {
    type V = QueueModel;

    closed spec fn view(&self) -> QueueModel {
        QueueModel { heap: self.heap@, best: self.min_paths@ }
    }
}

/// No point is noted twice.
pub open spec fn noted_once(best: Seq<(Point, i64)>) -> bool {
    forall|i: int, j: int|
        0 <= i < j < best.len() ==> (#[trigger] best[i]).0 != (#[trigger] best[j]).0
}

/// What `noted` says of lists in which no point is noted twice.
pub proof fn lemma_noted(best: Seq<(Point, i64)>, p: Point)
    requires
        noted_once(best),
    ensures
        match noted(best, p) {
            Some(v) => exists|k: int| 0 <= k < best.len() && #[trigger] best[k] == (p, v),
            None => forall|k: int| 0 <= k < best.len() ==> (#[trigger] best[k]).0 != p,
        },
        forall|k: int| 0 <= k < best.len() && (#[trigger] best[k]).0 == p ==> noted(best, p) == Some(
            best[k].1,
        ),
    decreases best.len(),
{
    if best.len() > 0 {
        let rest = best.drop_last();
        assert forall|i: int, j: int| 0 <= i < j < rest.len() implies (#[trigger] rest[i]).0 != (
        #[trigger] rest[j]).0 by {
            assert(rest[i] == best[i] && rest[j] == best[j]);
        }
        lemma_noted(rest, p);
        if best.last().0 == p {
            assert(best[best.len() - 1] == (p, best.last().1));
            assert forall|k: int| 0 <= k < best.len() && (#[trigger] best[k]).0 == p implies k
                == best.len() - 1 by {}
        } else {
            match noted(rest, p) {
                Some(v) => {
                    let k = choose|k: int| 0 <= k < rest.len() && #[trigger] rest[k] == (p, v);
                    assert(best[k] == (p, v));
                },
                None => {
                    assert forall|k: int| 0 <= k < best.len() implies (#[trigger] best[k]).0
                        != p by {
                        if k < rest.len() {
                            assert(rest[k] == best[k]);
                        }
                    }
                },
            }
            assert forall|k: int| 0 <= k < best.len() && (#[trigger] best[k]).0 == p implies noted(
                best,
                p,
            ) == Some(best[k].1) by {
                assert(rest[k] == best[k]);
            }
        }
    }
}

impl AstarQueue {
    pub open spec fn wf(&self) -> bool {
        noted_once(self@.best)
    }

    pub fn new() -> (q: AstarQueue)
        ensures
            q.wf(),
            q@.heap.len() == 0,
            q@.best.len() == 0,
    {
        AstarQueue { heap: Frontier::new(), min_paths: Vec::new() }
    }

    pub fn enqueue(&mut self, node: AstarNode)
        ensures
            final(self)@.heap == old(self)@.heap.push(node),
            final(self)@.best == old(self)@.best,
    {
        self.heap.push(node);
    }

    /// Takes out the node of the least price, the first of them where
    /// several have it.
    pub fn dequeue(&mut self) -> (r: Option<AstarNode>)
        ensures
            final(self)@.best == old(self)@.best,
            old(self)@.heap.len() == 0 ==> r is None && final(self)@ == old(self)@,
            old(self)@.heap.len() > 0 ==> exists|k: int| #[trigger]
                crate::queue::is_best(old(self)@.heap, k) && r == Some(old(self)@.heap[k])
                    && final(self)@.heap == old(self)@.heap.remove(k),
    {
        self.heap.pop()
    }

    pub fn len(&self) -> (n: usize)
        ensures
            n == self@.heap.len(),
    {
        self.heap.len()
    }

    /// Whether `point` was reached before with an estimate that is no
    /// greater than `fscore`. Where it was not, `fscore` is noted for it.
    pub fn point_already_reached(&mut self, point: &Point, fscore: i64) -> (reached: bool)
        requires
            old(self).wf(),
        ensures
            final(self).wf(),
            final(self)@.heap == old(self)@.heap,
            reached <==> (noted(old(self)@.best, *point) is Some && noted(old(self)@.best, *point)->0
                <= fscore),
            reached ==> final(self)@ == old(self)@,
            !reached ==> noted(final(self)@.best, *point) == Some(fscore),
            !reached ==> (exists|k: int|
                0 <= k < old(self)@.best.len() && old(self)@.best[k].0 == *point && fscore < old(
                    self,
                )@.best[k].1 && final(self)@.best == #[trigger] old(self)@.best.update(
                    k,
                    (*point, fscore),
                )) || (noted(old(self)@.best, *point) is None && final(self)@.best == old(
                self,
            )@.best.push((*point, fscore))),
    {
        let ghost before = self.min_paths@;
        proof {
            lemma_noted(before, *point);
        }
        let mut i: usize = 0;
        while i < self.min_paths.len()
            invariant
                i <= self.min_paths.len(),
                self.min_paths@ == before,
                before == old(self).min_paths@,
                self.heap@ == old(self).heap@,
                noted_once(before),
                forall|k: int| 0 <= k < i ==> (#[trigger] before[k]).0 != *point,
            decreases self.min_paths.len() - i,
        {
            if self.min_paths[i].0 == *point {
                proof {
                    lemma_noted(before, *point);
                }
                if self.min_paths[i].1 <= fscore {
                    return true;
                } else {
                    self.min_paths[i] = (*point, fscore);
                    proof {
                        let after = self.min_paths@;
                        assert(after == before.update(i as int, (*point, fscore)));
                        assert forall|a: int, b: int| 0 <= a < b < after.len() implies (
                        #[trigger] after[a]).0 != (#[trigger] after[b]).0 by {
                            assert(after[a].0 == before[a].0 && after[b].0 == before[b].0);
                        }
                        lemma_noted(after, *point);
                    }
                    return false;
                }
            }
            i += 1;
        }
        self.min_paths.push((*point, fscore));
        proof {
            lemma_noted(before, *point);
            let after = self.min_paths@;
            assert(after == before.push((*point, fscore)));
            assert forall|a: int, b: int| 0 <= a < b < after.len() implies (#[trigger] after[a]).0
                != (#[trigger] after[b]).0 by {
                if b < before.len() {
                    assert(after[a] == before[a] && after[b] == before[b]);
                } else {
                    assert(after[a] == before[a]);
                }
            }
            assert(after.drop_last() =~= before);
        }
        false
    }
}

/// Whether an estimate is noted for `p`.
pub open spec fn known(best: Seq<(Point, i64)>, p: Point) -> bool {
    exists|k: int| 0 <= k < best.len() && (#[trigger] best[k]).0 == p
}

/// Whether the search has reached `p`.
pub open spec fn seen(best: Seq<(Point, i64)>, start: Point, p: Point) -> bool {
    p == start || known(best, p)
}

/// Whether a node on `p` waits in the queue.
pub open spec fn waiting(heap: Seq<AstarNode>, p: Point) -> bool {
    exists|k: int| 0 <= k < heap.len() && (#[trigger] heap[k])@.point == p
}

/// Whether every neighbour of `p` that a path may lead over has been
/// reached.
pub open spec fn done(g: GridModel, best: Seq<(Point, i64)>, start: Point, p: Point) -> bool {
    forall|d: Direction| g.accessible(#[trigger] p.step(d)) ==> seen(best, start, p.step(d))
}

/// What holds of a node of the search that began at `start`.
pub open spec fn node_ok(g: GridModel, best: Seq<(Point, i64)>, start: Point, n: NodeModel) -> bool {
    &&& n.wf(g)
    &&& n.trail()[0] == start
    &&& forall|j: int| 1 <= j < n.trail().len() ==> known(best, #[trigger] n.trail()[j])
}

/// What holds of the queue between two expansions.
#[verifier::opaque]
pub open spec fn search_ok(
    g: GridModel,
    heap: Seq<AstarNode>,
    best: Seq<(Point, i64)>,
    start: Point,
    end: Point,
    busy: Option<Point>,
) -> bool {
    &&& forall|k: int| 0 <= k < heap.len() ==> node_ok(g, best, start, (#[trigger] heap[k])@)
    &&& noted_once(best)
    &&& forall|k: int| 0 <= k < best.len() ==> g.accessible((#[trigger] best[k]).0)
    &&& forall|p: Point|
        #![trigger seen(best, start, p)]
        seen(best, start, p) && busy != Some(p) ==> waiting(heap, p) || done(g, best, start, p)
    &&& seen(best, start, end) && busy != Some(end) ==> waiting(heap, end)
}

/// What the noted estimates have gained on the greatest estimate there is.
pub open spec fn gains(best: Seq<(Point, i64)>, n: int) -> int
    decreases n,
{
    if n <= 0 {
        0
    } else {
        gains(best, n - 1) + (i64::MAX - best[n - 1].1 + 1)
    }
}

/// What is left to gain on a grid of `cells` cells.
pub open spec fn room(best: Seq<(Point, i64)>, cells: int) -> int {
    0x1_0000_0000_0000_0001 * cells - gains(best, best.len() as int)
}

proof fn lemma_gains_bound(best: Seq<(Point, i64)>, n: int)
    requires
        0 <= n <= best.len(),
    ensures
        0 <= gains(best, n) <= 0x1_0000_0000_0000_0000 * n,
    decreases n,
{
    if n > 0 {
        lemma_gains_bound(best, n - 1);
    }
}

proof fn lemma_gains_update(best: Seq<(Point, i64)>, k: int, e: (Point, i64), n: int)
    requires
        0 <= k < best.len(),
        0 <= n <= best.len(),
    ensures
        gains(best.update(k, e), n) == gains(best, n) + if k < n {
            best[k].1 - e.1
        } else {
            0
        },
    decreases n,
{
    if n > 0 {
        lemma_gains_update(best, k, e, n - 1);
    }
}

proof fn lemma_gains_push(best: Seq<(Point, i64)>, e: (Point, i64), n: int)
    requires
        0 <= n <= best.len(),
    ensures
        gains(best.push(e), n) == gains(best, n),
    decreases n,
{
    if n > 0 {
        lemma_gains_push(best, e, n - 1);
        assert(best.push(e)[n - 1] == best[n - 1]);
    }
}

/// The points of a walk that visits none twice are, but for the first, no
/// more than cells, and the price of the walk is no more than 16 for each.
proof fn lemma_walk_bounds(g: GridModel, trail: Seq<Point>, n: int)
    requires
        g.wf(),
        is_walk(g, trail),
        1 <= n <= trail.len(),
    ensures
        0 <= walk_price(g, trail, n) <= 16 * (n - 1),
    decreases n,
{
    if n > 1 {
        lemma_walk_bounds(g, trail, n - 1);
        assert(g.accessible(trail[n - 1]));
    }
}

proof fn lemma_walk_fits(g: GridModel, trail: Seq<Point>)
    requires
        g.wf(),
        is_walk(g, trail),
        trail.no_duplicates(),
    ensures
        trail.len() - 1 <= g.cells.len(),
{
    let rest = trail.skip(1);
    assert forall|k: int| 0 <= k < rest.len() implies g.in_bounds(#[trigger] rest[k]) by {
        assert(g.accessible(trail[k + 1]));
    }
    assert forall|i: int, j: int| 0 <= i < rest.len() && 0 <= j < rest.len() && i != j implies rest[i]
        != rest[j] by {
        assert(trail[i + 1] != trail[j + 1]);
    }
    lemma_points_fit(g, rest);
}

/// The noted points are no more than cells.
proof fn lemma_noted_fit(g: GridModel, best: Seq<(Point, i64)>)
    requires
        g.wf(),
        noted_once(best),
        forall|k: int| 0 <= k < best.len() ==> g.accessible((#[trigger] best[k]).0),
    ensures
        best.len() <= g.cells.len(),
{
    let pts = Seq::new(best.len(), |k: int| best[k].0);
    assert forall|i: int, j: int| 0 <= i < pts.len() && 0 <= j < pts.len() && i != j implies pts[i]
        != pts[j] by {
        if i < j {
            assert(best[i].0 != best[j].0);
        } else {
            assert(best[j].0 != best[i].0);
        }
    }
    assert forall|k: int| 0 <= k < pts.len() implies g.in_bounds(#[trigger] pts[k]) by {
        assert(g.accessible(best[k].0));
    }
    lemma_points_fit(g, pts);
}

/// What `children_of` holds: each child is a neighbour that a path may lead
/// over and that the node has not visited, and each such neighbour is a
/// child.
proof fn lemma_children(n: NodeModel, g: GridModel, h: HeuristicModel, k: int)
    requires
        0 <= k <= 4,
    ensures
        forall|i: int|
            0 <= i < children_of(n, g, h, k).len() ==> {
                let c = #[trigger] children_of(n, g, h, k)[i];
                &&& g.accessible(c.1)
                &&& !n.parents.contains(c.1)
                &&& c.0 == h.value(n.point, c.1) as i64
                &&& exists|d: Direction| c.1 == #[trigger] n.point.step(d)
            },
        forall|j: int|
            0 <= j < k && g.accessible(n.point.step(#[trigger] all_directions()[j]))
                && !n.parents.contains(n.point.step(all_directions()[j])) ==> exists|i: int|
                0 <= i < children_of(n, g, h, k).len() && (#[trigger] children_of(n, g, h, k)[i]).1
                    == n.point.step(all_directions()[j]),
    decreases k,
{
    if k > 0 {
        lemma_children(n, g, h, k - 1);
        let prev = children_of(n, g, h, k - 1);
        let cur = children_of(n, g, h, k);
        let p = n.point.step(all_directions()[k - 1]);
        assert forall|j: int|
            0 <= j < k && g.accessible(n.point.step(#[trigger] all_directions()[j]))
                && !n.parents.contains(n.point.step(all_directions()[j])) implies exists|i: int|
            0 <= i < cur.len() && (#[trigger] cur[i]).1 == n.point.step(all_directions()[j]) by {
            if j < k - 1 {
                let i = choose|i: int|
                    0 <= i < prev.len() && (#[trigger] prev[i]).1 == n.point.step(
                        all_directions()[j],
                    );
                assert(cur[i] == prev[i]);
            } else {
                assert(cur[cur.len() - 1].1 == p);
            }
        }
        assert forall|i: int| 0 <= i < cur.len() implies {
            let c = #[trigger] cur[i];
            &&& g.accessible(c.1)
            &&& !n.parents.contains(c.1)
            &&& c.0 == h.value(n.point, c.1) as i64
            &&& exists|d: Direction| c.1 == #[trigger] n.point.step(d)
        } by {
            if i < prev.len() {
                assert(cur[i] == prev[i]);
            } else {
                assert(cur[i].1 == n.point.step(all_directions()[k - 1]));
            }
        }
    }
}

/// At the start of a search only the start is reached, and its node waits.
proof fn lemma_astar_start(g: GridModel, heap: Seq<AstarNode>, start: Point, end: Point)
    requires
        heap.len() == 1,
        heap[0]@ == (NodeModel { point: start, parents: Seq::empty(), gscore: 0 }),
    ensures
        search_ok(g, heap, Seq::empty(), start, end, None),
{
    reveal(search_ok);
    let best = Seq::<(Point, i64)>::empty();
    assert(heap[0]@.trail() =~= seq![start]);
    assert(waiting(heap, start));
    assert forall|p: Point| #![trigger seen(best, start, p)] seen(best, start, p) implies p
        == start by {}
}

/// Taking a node out of the queue leaves the rest in order; the node that
/// was taken out is in order too.
proof fn lemma_astar_pop(
    g: GridModel,
    heap: Seq<AstarNode>,
    best: Seq<(Point, i64)>,
    start: Point,
    end: Point,
    k0: int,
)
    requires
        g.wf(),
        search_ok(g, heap, best, start, end, None),
        0 <= k0 < heap.len(),
    ensures
        search_ok(g, heap.remove(k0), best, start, end, Some(heap[k0]@.point)),
        node_ok(g, best, start, heap[k0]@),
        best.len() <= g.cells.len(),
        0 <= heap[k0]@.gscore <= 16 * g.cells.len(),
        heap[k0]@.point != start ==> g.accessible(heap[k0]@.point),
{
    reveal(search_ok);
    let rest = heap.remove(k0);
    let q = heap[k0]@.point;
    let n = heap[k0]@;
    assert forall|p: Point| waiting(heap, p) && p != q implies waiting(rest, p) by {
        let k = choose|k: int| 0 <= k < heap.len() && (#[trigger] heap[k])@.point == p;
        if k < k0 {
            assert(rest[k]@.point == p);
        } else {
            assert(rest[k - 1]@.point == p);
        }
    }
    assert forall|k: int| 0 <= k < rest.len() implies node_ok(
        g,
        best,
        start,
        (#[trigger] rest[k])@,
    ) by {
        if k < k0 {
            assert(rest[k] == heap[k]);
        } else {
            assert(rest[k] == heap[k + 1]);
        }
    }
    assert forall|p: Point| #![trigger seen(best, start, p)]
        seen(best, start, p) && Some(q) != Some(p) implies waiting(rest, p) || done(
        g,
        best,
        start,
        p,
    ) by {
        if waiting(heap, p) {
            assert(waiting(rest, p));
        }
    }
    lemma_noted_fit(g, best);
    lemma_walk_fits(g, n.trail());
    lemma_walk_bounds(g, n.trail(), n.trail().len() as int);
    if q != start {
        let t = n.trail();
        assert(t[t.len() - 1] == q);
        assert(t.len() > 1);
        assert(g.accessible(t[t.len() - 1]));
    }
}

/// Once every neighbour of the point that was taken out is reached, the
/// queue is in order again.
proof fn lemma_astar_expanded(
    g: GridModel,
    heap: Seq<AstarNode>,
    best: Seq<(Point, i64)>,
    start: Point,
    end: Point,
    n: NodeModel,
    h: HeuristicModel,
)
    requires
        search_ok(g, heap, best, start, end, Some(n.point)),
        node_ok(g, best, start, n),
        n.point != end,
        forall|i: int|
            0 <= i < children_of(n, g, h, 4).len() ==> seen(
                best,
                start,
                (#[trigger] children_of(n, g, h, 4)[i]).1,
            ),
    ensures
        search_ok(g, heap, best, start, end, None),
{
    reveal(search_ok);
    lemma_children(n, g, h, 4);
    let q = n.point;
    assert forall|d: Direction| g.accessible(#[trigger] q.step(d)) implies seen(
        best,
        start,
        q.step(d),
    ) by {
        let j = d.index();
        assert(all_directions()[j] == d);
        let p = q.step(d);
        if n.parents.contains(p) {
            let k = choose|k: int| 0 <= k < n.parents.len() && n.parents[k] == p;
            assert(n.trail()[k] == p);
            if k > 0 {
                assert(known(best, n.trail()[k]));
            }
        } else {
            let i = choose|i: int|
                0 <= i < children_of(n, g, h, 4).len() && (#[trigger] children_of(n, g, h, 4)[i]).1
                    == p;
            assert(seen(best, start, children_of(n, g, h, 4)[i].1));
        }
    }
    assert(done(g, best, start, q));
}

/// A point at distance one is a step away.
proof fn lemma_neighbour_is_step(p: Point, q: Point)
    requires
        p.can_step(),
        p.manhattan(q) == 1,
    ensures
        exists|d: Direction| q == #[trigger] p.step(d),
{
    if q.x == p.x + 1 {
        assert(q == p.step(Direction::Right));
    } else if q.x == p.x - 1 {
        assert(q == p.step(Direction::Left));
    } else if q.y == p.y + 1 {
        assert(q == p.step(Direction::Up));
    } else {
        assert(q == p.step(Direction::Down));
    }
}

proof fn lemma_trail_is_seen(
    g: GridModel,
    best: Seq<(Point, i64)>,
    trail: Seq<Point>,
    start: Point,
    k: int,
)
    requires
        g.wf(),
        g.cells.len() < i32::MAX,
        start.can_step(),
        is_walk(g, trail),
        trail[0] == start,
        forall|p: Point| #![trigger seen(best, start, p)] seen(best, start, p) ==> done(g, best, start, p),
        0 <= k < trail.len(),
    ensures
        seen(best, start, trail[k]),
    decreases k,
{
    if k > 0 {
        lemma_trail_is_seen(g, best, trail, start, k - 1);
        let p = trail[k - 1];
        assert(seen(best, start, p));
        assert(done(g, best, start, p));
        if k - 1 > 0 {
            assert(g.accessible(trail[k - 1]));
            lemma_on_board_can_step(g, p);
        }
        assert(g.accessible(trail[k]));
        lemma_neighbour_is_step(p, trail[k]);
        let d = choose|d: Direction| trail[k] == #[trigger] p.step(d);
        assert(g.accessible(p.step(d)));
    }
}

/// When no node waits any more, no walk leads from the start to the end.
proof fn lemma_astar_exhausted(
    g: GridModel,
    heap: Seq<AstarNode>,
    best: Seq<(Point, i64)>,
    start: Point,
    end: Point,
)
    requires
        g.wf(),
        g.cells.len() < i32::MAX,
        start.can_step(),
        search_ok(g, heap, best, start, end, None),
        heap.len() == 0,
    ensures
        !reachable(g, start, end),
{
    reveal(search_ok);
    assert(!waiting(heap, end));
    assert(seen(best, start, start));
    if reachable(g, start, end) {
        let trail = choose|trail: Seq<Point>| #[trigger]
            is_walk(g, trail) && trail[0] == start && trail.last() == end;
        assert forall|p: Point| #![trigger seen(best, start, p)]
            seen(best, start, p) implies done(g, best, start, p) by {
            assert(!waiting(heap, p));
        }
        lemma_trail_is_seen(g, best, trail, start, trail.len() - 1);
    }
}

/// The price of a walk depends on its points alone.
proof fn lemma_walk_price_prefix(g: GridModel, a: Seq<Point>, b: Seq<Point>, n: int)
    requires
        0 <= n <= a.len(),
        n <= b.len(),
        forall|i: int| 0 <= i < n ==> a[i] == b[i],
    ensures
        walk_price(g, a, n) == walk_price(g, b, n),
    decreases n,
{
    if n > 1 {
        lemma_walk_price_prefix(g, a, b, n - 1);
    }
}

/// Noting an estimate for `child` keeps what was noted for the others.
proof fn lemma_known_after(
    best: Seq<(Point, i64)>,
    after: Seq<(Point, i64)>,
    child: Point,
    f: i64,
)
    requires
        (exists|k: int|
            0 <= k < best.len() && best[k].0 == child && after == #[trigger] best.update(
                k,
                (child, f),
            )) || after == best.push((child, f)),
    ensures
        known(after, child),
        forall|p: Point| known(best, p) ==> #[trigger] known(after, p),
        forall|p: Point| #[trigger] known(after, p) && p != child ==> known(best, p),
        after.len() >= best.len(),
        forall|k: int| 0 <= k < after.len() ==> (#[trigger] after[k]).0 == child || (k < best.len()
            && after[k].0 == best[k].0),
{
    if after == best.push((child, f)) {
        assert(after[best.len() as int].0 == child);
        assert forall|p: Point| known(best, p) implies #[trigger] known(after, p) by {
            let k = choose|k: int| 0 <= k < best.len() && (#[trigger] best[k]).0 == p;
            assert(after[k].0 == p);
        }
        assert forall|p: Point| #[trigger] known(after, p) && p != child implies known(best, p) by {
            let k = choose|k: int| 0 <= k < after.len() && (#[trigger] after[k]).0 == p;
            assert(best[k].0 == p);
        }
    } else {
        let k0 = choose|k: int|
            0 <= k < best.len() && best[k].0 == child && after == #[trigger] best.update(
                k,
                (child, f),
            );
        assert(after[k0].0 == child);
        assert forall|p: Point| known(best, p) implies #[trigger] known(after, p) by {
            let k = choose|k: int| 0 <= k < best.len() && (#[trigger] best[k]).0 == p;
            assert(after[k].0 == p);
        }
        assert forall|p: Point| #[trigger] known(after, p) && p != child implies known(best, p) by {
            let k = choose|k: int| 0 <= k < after.len() && (#[trigger] after[k]).0 == p;
            assert(best[k].0 == p);
        }
    }
}

/// Noting a lower estimate, or one for a new point, leaves less room.
proof fn lemma_room_shrinks(
    best: Seq<(Point, i64)>,
    after: Seq<(Point, i64)>,
    child: Point,
    f: i64,
    cells: int,
)
    requires
        (exists|k: int|
            0 <= k < best.len() && best[k].0 == child && f < best[k].1 && after
                == #[trigger] best.update(k, (child, f))) || after == best.push((child, f)),
    ensures
        room(after, cells) < room(best, cells),
{
    if after == best.push((child, f)) {
        lemma_gains_push(best, (child, f), best.len() as int);
    } else {
        let k0 = choose|k: int|
            0 <= k < best.len() && best[k].0 == child && f < best[k].1 && after
                == #[trigger] best.update(k, (child, f));
        lemma_gains_update(best, k0, (child, f), best.len() as int);
    }
}

/// While the queue is in order there is room left.
proof fn lemma_room_left(
    g: GridModel,
    heap: Seq<AstarNode>,
    best: Seq<(Point, i64)>,
    start: Point,
    end: Point,
    busy: Option<Point>,
)
    requires
        g.wf(),
        search_ok(g, heap, best, start, end, busy),
    ensures
        room(best, g.cells.len() as int) >= 0,
{
    reveal(search_ok);
    lemma_noted_fit(g, best);
    lemma_gains_bound(best, best.len() as int);
}

/// A node that the search holds stands at the end of a walk from the start.
proof fn lemma_node_reaches(g: GridModel, best: Seq<(Point, i64)>, start: Point, n: NodeModel)
    requires
        node_ok(g, best, start, n),
    ensures
        reachable(g, start, n.point),
        is_walk(g, n.trail()),
        n.trail().no_duplicates(),
        n.trail()[0] == start,
        n.trail().last() == n.point,
        n.steps() == n.trail().skip(1),
        n.gscore == walk_price(g, n.trail(), n.trail().len() as int),
{
    assert(is_walk(g, n.trail()) && n.trail()[0] == start && n.trail().last() == n.point);
}

/// Whether the cell `x` was expanded at a price of no more than `b`.
pub open spec fn settled_le(e: Map<Point, int>, x: Point, b: int) -> bool {
    e.contains_key(x) && e[x] <= b
}

/// Whether a node on `x` waits with a price of no more than `b`.
pub open spec fn pending_le(heap: Seq<AstarNode>, x: Point, b: int) -> bool {
    exists|k: int| 0 <= k < heap.len() && (#[trigger] heap[k])@.point == x && heap[k]@.gscore <= b
}

/// Whether the search has come to `x` at a price of no more than `b`.
pub open spec fn got_to(heap: Seq<AstarNode>, e: Map<Point, int>, x: Point, b: int) -> bool {
    settled_le(e, x, b) || pending_le(heap, x, b)
}

/// Every point that led to the node was expanded, at no more than the
/// price of the way up to it.
pub open spec fn ancestors_ok(g: GridModel, e: Map<Point, int>, n: NodeModel) -> bool {
    forall|j: int|
        0 <= j < n.parents.len() ==> settled_le(
            e,
            #[trigger] n.parents[j],
            walk_price(g, n.trail(), j + 1),
        )
}

/// What makes the first node on the end the one of the least price. `e`
/// holds, for each cell that was expanded, the price of the first node
/// that was expanded there; `floor` is the price of the node that was
/// taken out last. No node waits below the floor; each cell that was noted
/// was come to within the floor and its step, and each neighbour of an
/// expanded cell within the price of that cell and its step.
#[verifier::opaque]
pub open spec fn least_ok(
    g: GridModel,
    heap: Seq<AstarNode>,
    best: Seq<(Point, i64)>,
    start: Point,
    end: Point,
    e: Map<Point, int>,
    floor: int,
    busy: Option<Point>,
) -> bool {
    &&& 0 <= floor
    &&& forall|k: int|
        0 <= k < heap.len() ==> (#[trigger] heap[k])@.gscore >= floor && ancestors_ok(g, e, heap[k]@)
    &&& forall|c: Point| #[trigger] e.contains_key(c) ==> 0 <= e[c] <= floor
    &&& forall|i: int|
        0 <= i < best.len() ==> got_to(
            heap,
            e,
            (#[trigger] best[i]).0,
            floor + step_price(g, best[i].0),
        )
    &&& forall|c: Point, d: Direction|
        e.contains_key(c) && busy != Some(c) && g.accessible(#[trigger] c.step(d)) ==> got_to(
            heap,
            e,
            c.step(d),
            e[c] + step_price(g, c.step(d)),
        )
    &&& !e.contains_key(end)
    &&& e.contains_key(start) || (heap.len() == 1 && heap[0]@.point == start && heap[0]@.gscore == 0)
    &&& e.contains_key(start) ==> e[start] == 0
}

/// The price of a walk grows with its length.
proof fn lemma_walk_price_grows(g: GridModel, trail: Seq<Point>, a: int, b: int)
    requires
        g.wf(),
        is_walk(g, trail),
        1 <= a <= b <= trail.len(),
    ensures
        0 <= walk_price(g, trail, a) <= walk_price(g, trail, b),
    decreases b - a,
{
    if a < b {
        lemma_walk_price_grows(g, trail, a, b - 1);
        assert(g.accessible(trail[b - 1]));
    } else {
        lemma_walk_bounds(g, trail, a);
    }
}

proof fn lemma_least_start(g: GridModel, heap: Seq<AstarNode>, start: Point, end: Point)
    requires
        heap.len() == 1,
        heap[0]@ == (NodeModel { point: start, parents: Seq::empty(), gscore: 0 }),
    ensures
        least_ok(g, heap, Seq::empty(), start, end, Map::empty(), 0, None),
{
    reveal(least_ok);
}

/// What the search had come to it still has come to when a node is taken
/// out and its cell counts as expanded.
proof fn lemma_got_to_after_pop(
    heap: Seq<AstarNode>,
    e: Map<Point, int>,
    after: Map<Point, int>,
    k0: int,
    x: Point,
    b: int,
)
    requires
        0 <= k0 < heap.len(),
        got_to(heap, e, x, b),
        forall|c: Point| e.contains_key(c) ==> #[trigger] after.contains_key(c) && after[c] == e[c],
        settled_le(after, heap[k0]@.point, heap[k0]@.gscore as int),
    ensures
        got_to(heap.remove(k0), after, x, b),
{
    let rest = heap.remove(k0);
    if !settled_le(e, x, b) {
        let k = choose|k: int| 0 <= k < heap.len() && (#[trigger] heap[k])@.point == x && heap[k]@.gscore <= b;
        if k < k0 {
            assert(rest[k] == heap[k]);
        } else if k > k0 {
            assert(rest[k - 1] == heap[k]);
        }
    } else {
        assert(after.contains_key(x));
    }
}

/// Taking out the node of the least price keeps the search in order; its
/// cell counts as expanded from now on.
proof fn lemma_least_pop(
    g: GridModel,
    heap: Seq<AstarNode>,
    best: Seq<(Point, i64)>,
    start: Point,
    end: Point,
    e: Map<Point, int>,
    floor: int,
    k0: int,
)
    requires
        least_ok(g, heap, best, start, end, e, floor, None),
        crate::queue::is_best(heap, k0),
        heap[k0]@.point != end,
    ensures
        ({
            let n = heap[k0]@;
            let after = if e.contains_key(n.point) {
                e
            } else {
                e.insert(n.point, n.gscore as int)
            };
            let busy = if e.contains_key(n.point) {
                None
            } else {
                Some(n.point)
            };
            &&& least_ok(g, heap.remove(k0), best, start, end, after, n.gscore as int, busy)
            &&& ancestors_ok(g, after, n)
            &&& settled_le(after, n.point, n.gscore as int)
            &&& busy is Some ==> after[n.point] == n.gscore
            &&& n.gscore >= floor
        }),
{
    reveal(least_ok);
    let n = heap[k0]@;
    let c = n.point;
    let after = if e.contains_key(c) {
        e
    } else {
        e.insert(c, n.gscore as int)
    };
    let busy: Option<Point> = if e.contains_key(c) {
        None
    } else {
        Some(c)
    };
    let rest = heap.remove(k0);
    let level = n.gscore as int;
    assert(heap[k0]@.gscore >= floor);
    assert forall|k: int| 0 <= k < heap.len() implies (#[trigger] heap[k])@.gscore >= level by {
        assert(heap[k].rank() <= heap[k0].rank());
    }
    assert forall|x: Point| e.contains_key(x) implies #[trigger] after.contains_key(x) && after[x]
        == e[x] by {}
    assert(settled_le(after, c, level));
    assert forall|k: int| 0 <= k < rest.len() implies (#[trigger] rest[k])@.gscore >= level
        && ancestors_ok(g, after, rest[k]@) by {
        let o = if k < k0 {
            k
        } else {
            k + 1
        };
        assert(rest[k] == heap[o]);
        assert(ancestors_ok(g, e, heap[o]@));
        assert forall|j: int| 0 <= j < heap[o]@.parents.len() implies settled_le(
            after,
            #[trigger] heap[o]@.parents[j],
            walk_price(g, heap[o]@.trail(), j + 1),
        ) by {
            assert(settled_le(e, heap[o]@.parents[j], walk_price(g, heap[o]@.trail(), j + 1)));
        }
    }
    assert(ancestors_ok(g, after, n)) by {
        assert(ancestors_ok(g, e, heap[k0]@));
        assert forall|j: int| 0 <= j < n.parents.len() implies settled_le(
            after,
            #[trigger] n.parents[j],
            walk_price(g, n.trail(), j + 1),
        ) by {
            assert(settled_le(e, n.parents[j], walk_price(g, n.trail(), j + 1)));
        }
    }
    assert forall|i: int| 0 <= i < best.len() implies got_to(
        rest,
        after,
        (#[trigger] best[i]).0,
        level + step_price(g, best[i].0),
    ) by {
        let x = best[i].0;
        assert(got_to(heap, e, x, floor + step_price(g, x)));
        lemma_got_to_after_pop(heap, e, after, k0, x, floor + step_price(g, x));
        lemma_got_to_weaker(rest, after, x, floor + step_price(g, x), level + step_price(g, x));
    }
    assert forall|x: Point, d: Direction|
        after.contains_key(x) && busy != Some(x) && g.accessible(#[trigger] x.step(d)) implies got_to(
        rest,
        after,
        x.step(d),
        after[x] + step_price(g, x.step(d)),
    ) by {
        assert(e.contains_key(x));
        assert(got_to(heap, e, x.step(d), e[x] + step_price(g, x.step(d))));
        lemma_got_to_after_pop(heap, e, after, k0, x.step(d), e[x] + step_price(g, x.step(d)));
    }
}

/// What the search has come to within a bound it has come to within a
/// greater one.
proof fn lemma_got_to_weaker(heap: Seq<AstarNode>, e: Map<Point, int>, x: Point, b: int, c: int)
    requires
        got_to(heap, e, x, b),
        b <= c,
    ensures
        got_to(heap, e, x, c),
{
    if !settled_le(e, x, b) {
        let k = choose|k: int| 0 <= k < heap.len() && (#[trigger] heap[k])@.point == x && heap[k]@.gscore <= b;
        assert(heap[k]@.point == x && heap[k]@.gscore <= c);
    }
}

/// What the search has come to it still has come to when a node joins the
/// queue.
proof fn lemma_got_to_after_push(
    heap: Seq<AstarNode>,
    m: AstarNode,
    e: Map<Point, int>,
    x: Point,
    b: int,
)
    requires
        got_to(heap, e, x, b),
    ensures
        got_to(heap.push(m), e, x, b),
{
    if !settled_le(e, x, b) {
        let k = choose|k: int| 0 <= k < heap.len() && (#[trigger] heap[k])@.point == x && heap[k]@.gscore <= b;
        assert(heap.push(m)[k] == heap[k]);
    }
}

/// Queueing the node that leads on from the node that is being expanded
/// to one of its children keeps the search in order.
proof fn lemma_least_push(
    g: GridModel,
    heap: Seq<AstarNode>,
    best: Seq<(Point, i64)>,
    after: Seq<(Point, i64)>,
    start: Point,
    end: Point,
    e: Map<Point, int>,
    floor: int,
    busy: Option<Point>,
    n: NodeModel,
    m: AstarNode,
    child: Point,
)
    requires
        g.wf(),
        least_ok(g, heap, best, start, end, e, floor, busy),
        n.wf(g),
        n.trail()[0] == start,
        ancestors_ok(g, e, n),
        settled_le(e, n.point, n.gscore as int),
        n.gscore == floor,
        g.accessible(child),
        m@.point == child,
        m@.parents == n.trail(),
        m@.gscore == n.gscore + step_price(g, child),
        after.len() >= best.len(),
        forall|k: int|
            0 <= k < after.len() ==> (#[trigger] after[k]).0 == child || (k < best.len() && after[k].0
                == best[k].0),
    ensures
        least_ok(g, heap.push(m), after, start, end, e, floor, busy),
{
    reveal(least_ok);
    let next = heap.push(m);
    assert(m@.trail() =~= n.trail().push(child));
    assert(ancestors_ok(g, e, m@)) by {
        assert forall|j: int| 0 <= j < m@.parents.len() implies settled_le(
            e,
            #[trigger] m@.parents[j],
            walk_price(g, m@.trail(), j + 1),
        ) by {
            lemma_walk_price_prefix(g, m@.trail(), n.trail(), j + 1);
            if j < n.parents.len() {
                assert(m@.parents[j] == n.parents[j]);
                assert(settled_le(e, n.parents[j], walk_price(g, n.trail(), j + 1)));
            } else {
                assert(m@.parents[j] == n.point);
            }
        }
    }
    assert forall|k: int| 0 <= k < next.len() implies (#[trigger] next[k])@.gscore >= floor
        && ancestors_ok(g, e, next[k]@) by {
        if k < heap.len() {
            assert(next[k] == heap[k]);
        } else {
            assert(next[k] == m);
        }
    }
    assert(next[heap.len() as int] == m);
    assert forall|i: int| 0 <= i < after.len() implies got_to(
        next,
        e,
        (#[trigger] after[i]).0,
        floor + step_price(g, after[i].0),
    ) by {
        if after[i].0 == child {
            assert(next[heap.len() as int]@.point == child);
            assert(pending_le(next, child, floor + step_price(g, child)));
        } else {
            assert(got_to(heap, e, best[i].0, floor + step_price(g, best[i].0)));
            lemma_got_to_after_push(heap, m, e, best[i].0, floor + step_price(g, best[i].0));
        }
    }
    assert forall|x: Point, d: Direction|
        e.contains_key(x) && busy != Some(x) && g.accessible(#[trigger] x.step(d)) implies got_to(
        next,
        e,
        x.step(d),
        e[x] + step_price(g, x.step(d)),
    ) by {
        lemma_got_to_after_push(heap, m, e, x.step(d), e[x] + step_price(g, x.step(d)));
    }
    if !e.contains_key(start) {
        if n.parents.len() > 0 {
            assert(n.trail()[0] == n.parents[0]);
            assert(settled_le(e, n.parents[0], walk_price(g, n.trail(), 1)));
        } else {
            assert(n.trail()[0] == n.point);
        }
    }
}

/// Once every child of the node that was taken out has been looked at, the
/// search is in order again.
proof fn lemma_least_expanded(
    g: GridModel,
    heap: Seq<AstarNode>,
    best: Seq<(Point, i64)>,
    start: Point,
    end: Point,
    e: Map<Point, int>,
    floor: int,
    busy: Option<Point>,
    n: NodeModel,
    h: HeuristicModel,
)
    requires
        g.wf(),
        least_ok(g, heap, best, start, end, e, floor, busy),
        busy is Some ==> busy == Some(n.point) && e.contains_key(n.point) && e[n.point] == floor,
        n.wf(g),
        n.trail()[0] == start,
        n.gscore == floor,
        ancestors_ok(g, e, n),
        forall|i: int|
            0 <= i < children_of(n, g, h, 4).len() ==> known(
                best,
                (#[trigger] children_of(n, g, h, 4)[i]).1,
            ),
    ensures
        least_ok(g, heap, best, start, end, e, floor, None),
{
    reveal(least_ok);
    if busy is Some {
        let c = n.point;
        lemma_children(n, g, h, 4);
        assert forall|x: Point, d: Direction|
            e.contains_key(x) && g.accessible(#[trigger] x.step(d)) implies got_to(
            heap,
            e,
            x.step(d),
            e[x] + step_price(g, x.step(d)),
        ) by {
            if x == c {
                let p = c.step(d);
                let j = d.index();
                assert(all_directions()[j] == d);
                assert(g.accessible(p));
                if n.parents.contains(p) {
                    let k = choose|k: int| 0 <= k < n.parents.len() && n.parents[k] == p;
                    assert(settled_le(e, n.parents[k], walk_price(g, n.trail(), k + 1)));
                    lemma_walk_price_grows(g, n.trail(), k + 1, n.trail().len() as int);
                } else {
                    let i = choose|i: int|
                        0 <= i < children_of(n, g, h, 4).len() && (#[trigger] children_of(
                            n,
                            g,
                            h,
                            4,
                        )[i]).1 == p;
                    assert(known(best, children_of(n, g, h, 4)[i].1));
                    let b = choose|b: int| 0 <= b < best.len() && (#[trigger] best[b]).0 == p;
                    assert(got_to(heap, e, best[b].0, floor + step_price(g, best[b].0)));
                }
            }
        }
    }
}

proof fn lemma_least_reach(
    g: GridModel,
    heap: Seq<AstarNode>,
    best: Seq<(Point, i64)>,
    start: Point,
    end: Point,
    e: Map<Point, int>,
    floor: int,
    w: Seq<Point>,
    i: int,
)
    requires
        g.wf(),
        g.cells.len() < i32::MAX,
        start.can_step(),
        least_ok(g, heap, best, start, end, e, floor, None),
        is_walk(g, w),
        w[0] == start,
        0 <= i < w.len(),
    ensures
        settled_le(e, w[i], walk_price(g, w, i + 1)) || exists|j: int|
            0 <= j <= i && pending_le(heap, #[trigger] w[j], walk_price(g, w, j + 1)),
    decreases i,
{
    reveal(least_ok);
    if i == 0 {
        if !e.contains_key(start) {
            assert(heap[0]@.point == start && heap[0]@.gscore <= 0);
            assert(pending_le(heap, w[0], walk_price(g, w, 1)));
        }
    } else {
        lemma_least_reach(g, heap, best, start, end, e, floor, w, i - 1);
        if settled_le(e, w[i - 1], walk_price(g, w, i)) {
            let p = w[i - 1];
            if i - 1 > 0 {
                assert(g.accessible(w[i - 1]));
                lemma_on_board_can_step(g, p);
            }
            assert(g.accessible(w[i]));
            lemma_neighbour_is_step(p, w[i]);
            let d = choose|d: Direction| w[i] == #[trigger] p.step(d);
            assert(g.accessible(p.step(d)));
            assert(got_to(heap, e, p.step(d), e[p] + step_price(g, p.step(d))));
            lemma_got_to_weaker(
                heap,
                e,
                w[i],
                e[p] + step_price(g, w[i]),
                walk_price(g, w, i + 1),
            );
            if !settled_le(e, w[i], walk_price(g, w, i + 1)) {
                assert(pending_le(heap, w[i], walk_price(g, w, i + 1)));
            }
        } else {
            let j = choose|j: int|
                0 <= j <= i - 1 && pending_le(heap, #[trigger] w[j], walk_price(g, w, j + 1));
            assert(0 <= j <= i);
        }
    }
}

/// The first node on the end that is taken out has the least price of all
/// walks from the start to the end.
proof fn lemma_least(
    g: GridModel,
    heap: Seq<AstarNode>,
    best: Seq<(Point, i64)>,
    start: Point,
    end: Point,
    e: Map<Point, int>,
    floor: int,
    k0: int,
    w: Seq<Point>,
)
    requires
        g.wf(),
        g.cells.len() < i32::MAX,
        start.can_step(),
        least_ok(g, heap, best, start, end, e, floor, None),
        crate::queue::is_best(heap, k0),
        heap[k0]@.point == end,
        is_walk(g, w),
        w[0] == start,
        w.last() == end,
    ensures
        heap[k0]@.gscore <= walk_price(g, w, w.len() as int),
{
    lemma_least_reach(g, heap, best, start, end, e, floor, w, w.len() - 1);
    reveal(least_ok);
    assert(!settled_le(e, end, walk_price(g, w, w.len() as int)));
    let j = choose|j: int|
        0 <= j <= w.len() - 1 && pending_le(heap, #[trigger] w[j], walk_price(g, w, j + 1));
    let k = choose|k: int|
        0 <= k < heap.len() && (#[trigger] heap[k])@.point == w[j] && heap[k]@.gscore <= walk_price(
            g,
            w,
            j + 1,
        );
    assert(heap[k].rank() <= heap[k0].rank());
    lemma_walk_price_grows(g, w, j + 1, w.len() as int);
}

/// A search for a way from one point to another.
pub struct Astar {
    solution: Option<(i32, Vec<Point>)>,
}

impl Astar {
    /// The price and the steps of the way that the last search found.
    pub closed spec fn solution(&self) -> Option<(i32, Seq<Point>)> {
        match self.solution {
            Some((cost, path)) => Some((cost, path@)),
            None => None,
        }
    }

    pub fn new() -> (a: Astar)
        ensures
            a.solution() is None,
    {
        Astar { solution: None }
    }

    /// Looks at the child `child` of the node `current`: where it was not
    /// reached before with an estimate as low as this one, the estimate is
    /// noted and the node that leads on to the child is queued.
    fn consider(
        queue: &mut AstarQueue,
        current: &AstarNode,
        grid: &GameGrid,
        start: Point,
        end: Point,
        h: i64,
        child: Point,
        Ghost(e): Ghost<Map<Point, int>>,
        Ghost(busy): Ghost<Option<Point>>,
    )
        requires
            grid.wf(),
            16 * (grid@.cells.len() + 1) <= i32::MAX,
            old(queue).wf(),
            least_ok(
                grid@,
                old(queue)@.heap,
                old(queue)@.best,
                start,
                end,
                e,
                current@.gscore as int,
                busy,
            ),
            ancestors_ok(grid@, e, current@),
            settled_le(e, current@.point, current@.gscore as int),
            search_ok(grid@, old(queue)@.heap, old(queue)@.best, start, end, Some(current@.point)),
            node_ok(grid@, old(queue)@.best, start, current@),
            0 <= current@.gscore <= 16 * grid@.cells.len(),
            grid@.accessible(child),
            !current@.parents.contains(child),
            current@.point.manhattan(child) == 1,
            -VALUE_LIMIT <= h <= VALUE_LIMIT,
            current@.point != end,
        ensures
            final(queue).wf(),
            search_ok(
                grid@,
                final(queue)@.heap,
                final(queue)@.best,
                start,
                end,
                Some(current@.point),
            ),
            node_ok(grid@, final(queue)@.best, start, current@),
            least_ok(
                grid@,
                final(queue)@.heap,
                final(queue)@.best,
                start,
                end,
                e,
                current@.gscore as int,
                busy,
            ),
            known(final(queue)@.best, child),
            forall|p: Point|
                known(old(queue)@.best, p) ==> #[trigger] known(final(queue)@.best, p),
            seen(final(queue)@.best, start, child),
            forall|p: Point|
                seen(old(queue)@.best, start, p) ==> #[trigger] seen(final(queue)@.best, start, p),
            (final(queue)@.best == old(queue)@.best && final(queue)@.heap == old(queue)@.heap) || room(
                final(queue)@.best,
                grid@.cells.len() as int,
            ) < room(old(queue)@.best, grid@.cells.len() as int),
    {
        let ghost g = grid@;
        let ghost q = current@.point;
        let ghost heap = queue@.heap;
        let ghost best = queue@.best;
        let step: i32 = match grid.get_value(&child) {
            GridObject::Collisionchance(v) => v,
            GridObject::Hazard => 16,
            _ => 1,
        };
        let f = current.get_gscore() as i64 + h;
        proof {
            lemma_noted(best, child);
        }
        if !queue.point_already_reached(&child, f) {
            let node = current.extend_with_child(&child, step);
            queue.enqueue(node);
            proof {
                reveal(search_ok);
                let after = queue@.best;
                let heap1 = queue@.heap;
                lemma_known_after(best, after, child, f);
                lemma_room_shrinks(best, after, child, f, g.cells.len() as int);
                let n = current@;
                let m = node@;
                lemma_least_push(
                    g,
                    heap,
                    best,
                    after,
                    start,
                    end,
                    e,
                    n.gscore as int,
                    busy,
                    n,
                    node,
                    child,
                );
                assert(m.trail() =~= n.trail().push(child));
                assert(n.trail().last() == q);
                assert forall|i: int, j: int|
                    0 <= i < m.trail().len() && 0 <= j < m.trail().len() && i != j implies m.trail()[i]
                    != m.trail()[j] by {
                    if i < n.trail().len() && j < n.trail().len() {
                        assert(n.trail()[i] != n.trail()[j]);
                    } else {
                        let o = if i < j {
                            i
                        } else {
                            j
                        };
                        if o < n.parents.len() {
                            assert(n.parents[o] == n.trail()[o]);
                        }
                    }
                }
                lemma_walk_price_prefix(g, m.trail(), n.trail(), n.trail().len() as int);
                assert(node_ok(g, after, start, m));
                assert forall|k: int| 0 <= k < heap1.len() implies node_ok(
                    g,
                    after,
                    start,
                    (#[trigger] heap1[k])@,
                ) by {
                    if k < heap.len() {
                        assert(heap1[k] == heap[k]);
                        assert(node_ok(g, best, start, heap[k]@));
                    }
                }
                assert forall|k: int| 0 <= k < after.len() implies g.accessible(
                    (#[trigger] after[k]).0,
                ) by {
                    if after[k].0 != child {
                        assert(g.accessible(best[k].0));
                    }
                }
                assert forall|p: Point| #![trigger seen(after, start, p)]
                    seen(after, start, p) && Some(q) != Some(p) implies waiting(heap1, p) || done(
                    g,
                    after,
                    start,
                    p,
                ) by {
                    if p == child {
                        assert(heap1[heap.len() as int]@.point == child);
                    } else {
                        assert(seen(best, start, p));
                        if waiting(heap, p) {
                            let k = choose|k: int|
                                0 <= k < heap.len() && (#[trigger] heap[k])@.point == p;
                            assert(heap1[k]@.point == p);
                        } else {
                            assert(done(g, best, start, p));
                        }
                    }
                }
                if seen(after, start, end) {
                    if end == child {
                        assert(heap1[heap.len() as int]@.point == end);
                    } else {
                        assert(seen(best, start, end));
                        let k = choose|k: int|
                            0 <= k < heap.len() && (#[trigger] heap[k])@.point == end;
                        assert(heap1[k]@.point == end);
                    }
                }
            }
        }
    }

    /// Searches a way from `start` to `end` over the cells that a path may
    /// lead over. The search goes on from the node of the least price, and
    /// passes over a neighbour that was reached before with an estimate
    /// that is no greater.
    ///
    /// The result says whether a way exists. The way that was found does
    /// not hold `start` and visits no point twice; its price is 16 for each
    /// step onto a hazard and 1 for any other, and no walk from `start` to
    /// `end` has a lower price. From a point to itself the way has no step
    /// and costs nothing.
    pub fn solve(&mut self, start: Point, end: Point, grid: &GameGrid, heur: &Heuristic) -> (found:
        bool)
        requires
            grid.wf(),
            start != end ==> heur.wf() && start.can_step() && 16 * (grid@.cells.len() + 1) <= i32::MAX,
            start != end && heur@.method is Battlesnake ==> heur@.width == grid@.width && heur@.height
                == grid@.height && grid@.in_bounds(start),
        ensures
            found <==> reachable(grid@, start, end),
            start == end ==> found && final(self).solution() == Some((0i32, Seq::<Point>::empty())),
            !found ==> final(self).solution() is None,
            found ==> match final(self).solution() {
                Some((cost, steps)) => {
                    &&& exists|trail: Seq<Point>| #[trigger]
                        is_walk(grid@, trail) && trail.no_duplicates() && trail[0] == start
                            && trail.last() == end && steps == trail.skip(1) && cost == walk_price(
                            grid@,
                            trail,
                            trail.len() as int,
                        )
                    &&& forall|walk: Seq<Point>| #[trigger]
                        is_walk(grid@, walk) && walk[0] == start && walk.last() == end ==> cost
                            <= walk_price(grid@, walk, walk.len() as int)
                },
                None => false,
            },
    {
        let ghost g = grid@;
        if start == end {
            self.solution = Some((0, Vec::new()));
            proof {
                let trail = seq![start];
                assert(is_walk(g, trail) && trail[0] == start && trail.last() == end);
                assert(trail.skip(1) =~= Seq::<Point>::empty());
                assert forall|walk: Seq<Point>| #[trigger]
                    is_walk(g, walk) && walk[0] == start && walk.last() == end implies 0
                    <= walk_price(g, walk, walk.len() as int) by {
                    lemma_walk_bounds(g, walk, walk.len() as int);
                }
            }
            return true;
        }
        self.solution = None;
        let ghost cells = grid@.cells.len() as int;
        let mut queue = AstarQueue::new();
        queue.enqueue(AstarNode::new(start));
        let ghost mut e: Map<Point, int> = Map::empty();
        let ghost mut floor: int = 0;
        proof {
            assert(queue@.best =~= Seq::empty());
            lemma_astar_start(g, queue@.heap, start, end);
            lemma_least_start(g, queue@.heap, start, end);
        }
        while queue.len() > 0
            invariant
                grid.wf(),
                heur.wf(),
                start.can_step(),
                g == grid@,
                cells == g.cells.len(),
                16 * (cells + 1) <= i32::MAX,
                heur@.method is Battlesnake ==> heur@.width == g.width && heur@.height == g.height
                    && g.in_bounds(start),
                queue.wf(),
                search_ok(g, queue@.heap, queue@.best, start, end, None),
                least_ok(g, queue@.heap, queue@.best, start, end, e, floor, None),
                self.solution() is None,
            decreases room(queue@.best, cells), queue@.heap.len(),
        {
            let ghost heap0 = queue@.heap;
            let ghost best0 = queue@.best;
            let current = match queue.dequeue() {
                Some(c) => c,
                None => {
                    return false;
                },
            };
            let ghost k0 = choose|k: int| #[trigger]
                crate::queue::is_best(heap0, k) && current == heap0[k] && queue@.heap
                    == heap0.remove(k);
            proof {
                lemma_astar_pop(g, heap0, best0, start, end, k0);
                lemma_room_left(g, heap0, best0, start, end, None);
                lemma_node_reaches(g, best0, start, current@);
            }
            if current.is_end(&end) {
                let cost = current.get_gscore();
                let path = current.get_path();
                self.solution = Some((cost, path));
                proof {
                    assert forall|walk: Seq<Point>| #[trigger]
                        is_walk(g, walk) && walk[0] == start && walk.last() == end implies cost
                        <= walk_price(g, walk, walk.len() as int) by {
                        lemma_least(g, heap0, best0, start, end, e, floor, k0, walk);
                    }
                    let trail = current@.trail();
                    if start == end {
                        if trail.len() > 1 {
                            assert(trail[0] != trail[trail.len() - 1]);
                        }
                        assert(trail.skip(1) =~= Seq::<Point>::empty());
                    }
                }
                return true;
            }
            let ghost busy: Option<Point> = if e.contains_key(current@.point) {
                None
            } else {
                Some(current@.point)
            };
            proof {
                if current@.point != start {
                    lemma_on_board_can_step(g, current@.point);
                }
                lemma_least_pop(g, heap0, best0, start, end, e, floor, k0);
                if !e.contains_key(current@.point) {
                    e = e.insert(current@.point, current@.gscore as int);
                }
                floor = current@.gscore as int;
            }
            let children = current.get_children(grid, heur);
            proof {
                lemma_children(current@, g, heur@, 4);
            }
            let mut i: usize = 0;
            while i < children.len()
                invariant
                    i <= children.len(),
                    grid.wf(),
                    g == grid@,
                    cells == g.cells.len(),
                    16 * (cells + 1) <= i32::MAX,
                    queue.wf(),
                    current@.point != end,
                    current@.point.can_step(),
                    0 <= current@.gscore <= 16 * cells,
                    children@ == children_of(current@, g, heur@, 4),
                    forall|i: int|
                        0 <= i < children.len() ==> -VALUE_LIMIT <= (#[trigger] children[i]).0
                            <= VALUE_LIMIT,
                    forall|i: int|
                        0 <= i < children_of(current@, g, heur@, 4).len() ==> {
                            let c = #[trigger] children_of(current@, g, heur@, 4)[i];
                            &&& g.accessible(c.1)
                            &&& !current@.parents.contains(c.1)
                            &&& exists|d: Direction| c.1 == #[trigger] current@.point.step(d)
                        },
                    search_ok(g, queue@.heap, queue@.best, start, end, Some(current@.point)),
                    node_ok(g, queue@.best, start, current@),
                    least_ok(g, queue@.heap, queue@.best, start, end, e, floor, busy),
                    floor == current@.gscore,
                    ancestors_ok(g, e, current@),
                    settled_le(e, current@.point, current@.gscore as int),
                    forall|j: int| 0 <= j < i ==> seen(queue@.best, start, (#[trigger] children@[j]).1),
                    forall|j: int| 0 <= j < i ==> known(queue@.best, (#[trigger] children@[j]).1),
                    room(queue@.best, cells) < room(best0, cells) || (queue@.best == best0
                        && queue@.heap.len() == heap0.len() - 1),
                decreases children.len() - i,
            {
                let (h, child) = children[i];
                proof {
                    let c = children_of(current@, g, heur@, 4)[i as int];
                    assert(c.1 == child);
                    let d = choose|d: Direction| c.1 == #[trigger] current@.point.step(d);
                    assert(current@.point.manhattan(current@.point.step(d)) == 1);
                }
                Astar::consider(
                    &mut queue,
                    &current,
                    grid,
                    start,
                    end,
                    h,
                    child,
                    Ghost(e),
                    Ghost(busy),
                );
                i += 1;
            }
            proof {
                lemma_astar_expanded(g, queue@.heap, queue@.best, start, end, current@, heur@);
                lemma_room_left(g, queue@.heap, queue@.best, start, end, None);
                lemma_least_expanded(
                    g,
                    queue@.heap,
                    queue@.best,
                    start,
                    end,
                    e,
                    floor,
                    busy,
                    current@,
                    heur@,
                );
            }
        }
        proof {
            lemma_astar_exhausted(g, queue@.heap, queue@.best, start, end);
            if start == end {
                let trail = seq![start];
                assert(is_walk(g, trail) && trail[0] == start && trail.last() == end);
            }
        }
        false
    }

    /// The steps of the way that the last search found.
    pub fn get_path(&self) -> (path: Vec<Point>)
        requires
            self.solution() is Some,
        ensures
            match self.solution() {
                Some((_, steps)) => path@ == steps,
                None => false,
            },
    {
        match &self.solution {
            Some((_, path)) => {
                let p = path.clone();
                assert(p@ =~= path@);
                p
            },
            None => Vec::new(),
        }
    }

    /// The price of the way that the last search found.
    pub fn get_cost(&self) -> (cost: i32)
        requires
            self.solution() is Some,
        ensures
            match self.solution() {
                Some((price, _)) => cost == price,
                None => false,
            },
    {
        match &self.solution {
            Some((cost, _)) => *cost,
            None => 0,
        }
    }
}

} // verus!
