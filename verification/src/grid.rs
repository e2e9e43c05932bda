//! The grid index: one cell per board position, painted from a snapshot.

use vstd::prelude::*;
use crate::point::Point;

verus! {

/// What a cell of the grid holds.
#[derive(Debug, Copy, Clone, PartialEq, Eq, Structural)]
pub enum GridObject {
    Empty,
    Food,
    /// A segment of the snake with the given index.
    Snake(usize),
    Hazard,
    /// A cell that a stronger snake's head may enter next, with its weight.
    Collisionchance(i32),
    Outofbounds,
}

impl GridObject {
    pub open spec fn spec_is_snake(&self) -> bool {
        self is Snake
    }

    #[verifier::when_used_as_spec(spec_is_snake)]
    pub fn is_snake(&self) -> (b: bool)
        ensures
            b == (*self is Snake),
    {
        match self {
            GridObject::Snake(_) => true,
            _ => false,
        }
    }

    /// Whether a move onto the cell is worth a look: it holds no snake, no
    /// risk of a collision and lies on the board.
    pub fn is_considerable(&self) -> (b: bool)
        ensures
            b == !(*self is Snake || *self is Collisionchance || *self is Outofbounds),
    {
        match self {
            GridObject::Snake(_) => false,
            GridObject::Collisionchance(_) => false,
            GridObject::Outofbounds => false,
            _ => true,
        }
    }

    /// Whether a snake could stand on the cell at all: it holds no snake and
    /// lies on the board.
    pub fn is_accessible(&self) -> (b: bool)
        ensures
            b == !(*self is Snake || *self is Outofbounds),
    {
        match self {
            GridObject::Snake(_) => false,
            GridObject::Outofbounds => false,
            _ => true,
        }
    }
}

/// What a grid is: its size and its cells, row by row from the bottom.
pub struct GridModel {
    pub height: nat,
    pub width: nat,
    pub cells: Seq<GridObject>,
    pub ignore_hazard: bool,
}

impl GridModel {
    pub open spec fn wf(self) -> bool {
        self.cells.len() == self.height * self.width
    }

    pub open spec fn in_bounds(self, p: Point) -> bool {
        0 <= p.x < self.width && 0 <= p.y < self.height
    }

    /// The index of the cell at `p`.
    pub open spec fn index(self, p: Point) -> int {
        p.y * self.width + p.x
    }

    /// What the grid holds at `p`; `Outofbounds` off the board.
    pub open spec fn value(self, p: Point) -> GridObject {
        if self.in_bounds(p) {
            self.cells[self.index(p)]
        } else {
            GridObject::Outofbounds
        }
    }

    /// Whether a path may lead over `p`: the cell is empty, holds food, or
    /// is a hazard while hazards are ignored.
    pub open spec fn accessible(self, p: Point) -> bool {
        let v = self.value(p);
        v == GridObject::Empty || v == GridObject::Food || (v == GridObject::Hazard
            && self.ignore_hazard)
    }

    /// Same size and same treatment of hazards.
    pub open spec fn same_frame(self, other: GridModel) -> bool {
        &&& self.height == other.height
        &&& self.width == other.width
        &&& self.ignore_hazard == other.ignore_hazard
    }
}

/// Whether one of the first `k` points of `s` is `p`.
pub open spec fn among(s: Seq<Point>, k: int, p: Point) -> bool {
    exists|j: int| 0 <= j < k && j < s.len() && s[j] == p
}

/// The greatest index below `n` of a body that lies on `p`.
pub open spec fn last_owner(bodies: Seq<Vec<Point>>, p: Point, n: int) -> Option<int>
    decreases n,
{
    if n <= 0 {
        None
    } else if bodies[n - 1]@.contains(p) {
        Some(n - 1)
    } else {
        last_owner(bodies, p, n - 1)
    }
}

/// Two points of the board have the same index only if they are the same.
pub proof fn lemma_index_injective(g: GridModel, p: Point, q: Point)
    requires
        g.in_bounds(p),
        g.in_bounds(q),
        g.index(p) == g.index(q),
    ensures
        p == q,
{
    let w = g.width as int;
    let (py, qy, px, qx) = (p.y as int, q.y as int, p.x as int, q.x as int);
    assert(py == qy) by (nonlinear_arith)
        requires
            py * w + px == qy * w + qx,
            0 <= px < w,
            0 <= qx < w,
    ;
}

/// The index of a point of the board is the index of a cell.
pub proof fn lemma_index_in_range(g: GridModel, p: Point)
    requires
        g.wf(),
        g.in_bounds(p),
    ensures
        0 <= g.index(p) < g.cells.len(),
{
    let (w, h) = (g.width as int, g.height as int);
    let (py, px) = (p.y as int, p.x as int);
    assert(0 <= py * w + px < h * w) by (nonlinear_arith)
        requires
            0 <= px < w,
            0 <= py < h,
    ;
}

/// Points of the board, no two of them the same, are no more than cells.
pub proof fn lemma_points_fit(g: GridModel, pts: Seq<Point>)
    requires
        g.wf(),
        pts.no_duplicates(),
        forall|k: int| 0 <= k < pts.len() ==> g.in_bounds(#[trigger] pts[k]),
    ensures
        pts.len() <= g.cells.len(),
{
    let idx = Seq::new(pts.len(), |k: int| g.index(pts[k]));
    assert forall|i: int, j: int| 0 <= i < idx.len() && 0 <= j < idx.len() && i != j implies idx[i]
        != idx[j] by {
        if idx[i] == idx[j] {
            lemma_index_injective(g, pts[i], pts[j]);
        }
    }
    idx.unique_seq_to_set();
    vstd::set_lib::lemma_int_range(0, g.cells.len() as int);
    let range = vstd::set_lib::set_int_range(0, g.cells.len() as int);
    assert forall|a: int| idx.to_set().contains(a) implies range.contains(a) by {
        let k = choose|k: int| 0 <= k < idx.len() && idx[k] == a;
        lemma_index_in_range(g, pts[k]);
    }
    vstd::set_lib::lemma_len_subset(idx.to_set(), range);
}

/// A point of the board can take a step.
pub proof fn lemma_on_board_can_step(g: GridModel, p: Point)
    requires
        g.wf(),
        g.in_bounds(p),
        g.cells.len() < i32::MAX,
    ensures
        p.can_step(),
{
    let (w, h) = (g.width as int, g.height as int);
    assert(w <= w * h && h <= w * h) by (nonlinear_arith)
        requires
            w >= 1,
            h >= 1,
    ;
    assert(g.cells.len() == h * w);
    assert(h * w == w * h) by (nonlinear_arith);
}

/// The grid index of a board.
pub struct GameGrid {
    height: usize,
    width: usize,
    data: Vec<GridObject>,
    ignore_hazard: bool,
}

impl View for GameGrid {
    type V = GridModel;

    closed spec fn view(&self) -> GridModel {
        GridModel {
            height: self.height as nat,
            width: self.width as nat,
            cells: self.data@,
            ignore_hazard: self.ignore_hazard,
        }
    }
}

impl GameGrid {
    /// The grid has one cell for each position.
    pub open spec fn wf(&self) -> bool {
        self@.wf() && self@.height <= usize::MAX && self@.width <= usize::MAX
    }

    /// An empty grid of `dimensions.0` rows and `dimensions.1` columns.
    pub fn new(dimensions: (usize, usize)) -> (g: GameGrid)
        requires
            dimensions.0 * dimensions.1 <= usize::MAX,
        ensures
            g.wf(),
            g@.height == dimensions.0,
            g@.width == dimensions.1,
            !g@.ignore_hazard,
            forall|i: int| 0 <= i < g@.cells.len() ==> g@.cells[i] == GridObject::Empty,
    {
        GameGrid {
            height: dimensions.0,
            width: dimensions.1,
            data: vec![GridObject::Empty; dimensions.0 * dimensions.1],
            ignore_hazard: false,
        }
    }

    /// Empties every cell.
    pub fn reset(&mut self)
        requires
            old(self).wf(),
        ensures
            final(self).wf(),
            final(self)@.same_frame(old(self)@),
            forall|i: int|
                0 <= i < final(self)@.cells.len() ==> final(self)@.cells[i] == GridObject::Empty,
    {
        assert(self.height * self.width == self.data.len());
        self.data = vec![GridObject::Empty; self.height * self.width];
    }

    /// The index of the cell at `pos`, if `pos` lies on the board.
    pub fn get_index(&self, pos: &Point) -> (r: Option<usize>)
        requires
            self.wf(),
        ensures
            r is Some <==> self@.in_bounds(*pos),
            r is Some ==> r->0 == self@.index(*pos) && r->0 < self@.cells.len(),
    {
        if !self.is_in_bounds(pos) {
            None
        } else {
            let y = pos.y as usize;
            let x = pos.x as usize;
            let n = self.data.len();
            proof {
                lemma_index_in_range(self@, *pos);
                let (yi, wi, xi) = (y as int, self.width as int, x as int);
                assert(self@.index(*pos) == yi * wi + xi);
                assert(0 <= yi * wi) by (nonlinear_arith)
                    requires
                        0 <= yi,
                        0 <= wi,
                ;
                assert(yi * wi + xi < n);
            }
            Some(y * self.width + x)
        }
    }

    /// What the grid holds at `pos`.
    pub fn get_value(&self, pos: &Point) -> (v: GridObject)
        requires
            self.wf(),
        ensures
            v == self@.value(*pos),
    {
        match self.get_index(pos) {
            Some(i) => self.data[i],
            None => GridObject::Outofbounds,
        }
    }

    /// What the cell with index `i` holds; `Outofbounds` where there is no
    /// such cell.
    pub fn get_value_at_index(&self, i: usize) -> (v: GridObject)
        requires
            self.wf(),
        ensures
            v == if i < self@.cells.len() {
                self@.cells[i as int]
            } else {
                GridObject::Outofbounds
            },
    {
        if i < self.data.len() {
            self.data[i]
        } else {
            GridObject::Outofbounds
        }
    }

    /// Whether a path may lead over `pos`.
    pub fn is_accessible(&self, pos: &Point) -> (b: bool)
        requires
            self.wf(),
        ensures
            b == self@.accessible(*pos),
    {
        let val = self.get_value(pos);
        val == GridObject::Empty || val == GridObject::Food || (val == GridObject::Hazard
            && self.ignore_hazard)
    }

    /// Whether `pos` lies on the board.
    pub fn is_in_bounds(&self, pos: &Point) -> (b: bool)
        ensures
            b == self@.in_bounds(*pos),
    {
        0 <= pos.x && (pos.x as usize) < self.width && 0 <= pos.y && (pos.y as usize) < self.height
    }

    /// Writes `obj` into the cell at `pos`, if `pos` lies on the board and
    /// either `over_snakes` is set or the cell holds no snake.
    fn put(&mut self, pos: &Point, obj: GridObject, over_snakes: bool)
        requires
            old(self).wf(),
        ensures
            final(self).wf(),
            final(self)@.same_frame(old(self)@),
            forall|p: Point|
                old(self)@.in_bounds(p) ==> #[trigger] final(self)@.value(p) == if p == *pos && (
                over_snakes || !old(self)@.value(p).is_snake()) {
                    obj
                } else {
                    old(self)@.value(p)
                },
    {
        match self.get_index(pos) {
            Some(i) => {
                if over_snakes || !self.data[i].is_snake() {
                    self.data[i] = obj;
                    assert forall|p: Point| old(self)@.in_bounds(p) implies #[trigger] self@.value(
                        p,
                    ) == if p == *pos {
                        obj
                    } else {
                        old(self)@.value(p)
                    } by {
                        if p != *pos {
                            if self@.index(p) == i {
                                lemma_index_injective(old(self)@, p, *pos);
                            }
                            lemma_index_in_range(old(self)@, p);
                        }
                    }
                }
            },
            None => {},
        }
    }

    /// Paints each body with the index of its snake; where two bodies
    /// overlap the later snake stays. Points off the board are passed over.
    pub fn set_snakes(&mut self, snakes: Vec<Vec<Point>>)
        requires
            old(self).wf(),
        ensures
            final(self).wf(),
            final(self)@.same_frame(old(self)@),
            forall|p: Point|
                old(self)@.in_bounds(p) ==> #[trigger] final(self)@.value(p) == match last_owner(
                    snakes@,
                    p,
                    snakes@.len() as int,
                ) {
                    Some(k) => GridObject::Snake(k as usize),
                    None => old(self)@.value(p),
                },
    {
        let mut k: usize = 0;
        while k < snakes.len()
            invariant
                k <= snakes.len(),
                self.wf(),
                self@.same_frame(old(self)@),
                forall|p: Point|
                    old(self)@.in_bounds(p) ==> #[trigger] self@.value(p) == match last_owner(
                        snakes@,
                        p,
                        k as int,
                    ) {
                        Some(o) => GridObject::Snake(o as usize),
                        None => old(self)@.value(p),
                    },
            decreases snakes.len() - k,
        {
            let ghost before = self@;
            let body = &snakes[k];
            let mut j: usize = 0;
            while j < body.len()
                invariant
                    j <= body.len(),
                    k < snakes.len(),
                    body == &snakes[k as int],
                    self.wf(),
                    self@.same_frame(before),
                    before.same_frame(old(self)@),
                    forall|p: Point|
                        before.in_bounds(p) ==> #[trigger] self@.value(p) == if among(body@, j as int, p) {
                            GridObject::Snake(k)
                        } else {
                            before.value(p)
                        },
                decreases body.len() - j,
            {
                let ghost mid = self@;
                self.put(&body[j], GridObject::Snake(k), true);
                assert forall|p: Point| before.in_bounds(p) implies #[trigger] self@.value(p)
                    == if among(body@, j + 1, p) {
                    GridObject::Snake(k)
                } else {
                    before.value(p)
                } by {
                    assert(mid.in_bounds(p));
                    if p == body@[j as int] {
                        assert(among(body@, j + 1, p));
                    } else if among(body@, j as int, p) {
                        assert(among(body@, j + 1, p));
                    } else if among(body@, j + 1, p) {
                        assert(false);
                    }
                }
                j += 1;
            }
            assert forall|p: Point| old(self)@.in_bounds(p) implies #[trigger] self@.value(p)
                == match last_owner(snakes@, p, k + 1) {
                Some(o) => GridObject::Snake(o as usize),
                None => old(self)@.value(p),
            } by {
                assert(before.in_bounds(p));
                if body@.contains(p) {
                    assert(among(body@, body@.len() as int, p));
                } else if among(body@, body@.len() as int, p) {
                    assert(false);
                }
            }
            k += 1;
        }
    }

    /// Paints the cells of `food`, whatever they held.
    pub fn set_food(&mut self, food: &Vec<Point>)
        requires
            old(self).wf(),
        ensures
            final(self).wf(),
            final(self)@.same_frame(old(self)@),
            forall|p: Point|
                old(self)@.in_bounds(p) ==> #[trigger] final(self)@.value(p) == if food@.contains(p) {
                    GridObject::Food
                } else {
                    old(self)@.value(p)
                },
    {
        let mut k: usize = 0;
        while k < food.len()
            invariant
                k <= food.len(),
                self.wf(),
                self@.same_frame(old(self)@),
                forall|p: Point|
                    old(self)@.in_bounds(p) ==> #[trigger] self@.value(p) == if among(food@, k as int, p) {
                        GridObject::Food
                    } else {
                        old(self)@.value(p)
                    },
            decreases food.len() - k,
        {
            let ghost mid = self@;
            self.put(&food[k], GridObject::Food, true);
            assert forall|p: Point| old(self)@.in_bounds(p) implies #[trigger] self@.value(p)
                == if among(food@, k + 1, p) {
                GridObject::Food
            } else {
                old(self)@.value(p)
            } by {
                assert(mid.in_bounds(p));
                if p == food@[k as int] {
                    assert(among(food@, k + 1, p));
                } else if among(food@, k as int, p) {
                    assert(among(food@, k + 1, p));
                } else if among(food@, k + 1, p) {
                    assert(false);
                }
            }
            k += 1;
        }
        assert forall|p: Point| old(self)@.in_bounds(p) implies #[trigger] self@.value(p)
            == if food@.contains(p) {
            GridObject::Food
        } else {
            old(self)@.value(p)
        } by {
            if food@.contains(p) {
                assert(among(food@, food@.len() as int, p));
            } else if among(food@, food@.len() as int, p) {
                assert(false);
            }
        }
    }

    /// Paints the cells of `marks` that hold no snake with `obj`.
    fn set_unless_snake(&mut self, marks: &Vec<Point>, obj: GridObject)
        requires
            old(self).wf(),
            !(obj is Snake),
        ensures
            final(self).wf(),
            final(self)@.same_frame(old(self)@),
            forall|p: Point|
                old(self)@.in_bounds(p) ==> #[trigger] final(self)@.value(p) == if marks@.contains(p)
                    && !old(self)@.value(p).is_snake() {
                    obj
                } else {
                    old(self)@.value(p)
                },
    {
        let mut k: usize = 0;
        while k < marks.len()
            invariant
                k <= marks.len(),
                !(obj is Snake),
                self.wf(),
                self@.same_frame(old(self)@),
                forall|p: Point|
                    old(self)@.in_bounds(p) ==> #[trigger] self@.value(p) == if among(marks@, k as int, p)
                        && !old(self)@.value(p).is_snake() {
                        obj
                    } else {
                        old(self)@.value(p)
                    },
            decreases marks.len() - k,
        {
            let ghost mid = self@;
            self.put(&marks[k], obj, false);
            assert forall|p: Point| old(self)@.in_bounds(p) implies #[trigger] self@.value(p)
                == if among(marks@, k + 1, p) && !old(self)@.value(p).is_snake() {
                obj
            } else {
                old(self)@.value(p)
            } by {
                assert(mid.in_bounds(p));
                if p == marks@[k as int] {
                    assert(among(marks@, k + 1, p));
                } else if among(marks@, k as int, p) {
                    assert(among(marks@, k + 1, p));
                } else if among(marks@, k + 1, p) {
                    assert(false);
                }
            }
            k += 1;
        }
        assert forall|p: Point| old(self)@.in_bounds(p) implies #[trigger] self@.value(p)
            == if marks@.contains(p) && !old(self)@.value(p).is_snake() {
            obj
        } else {
            old(self)@.value(p)
        } by {
            if marks@.contains(p) {
                assert(among(marks@, marks@.len() as int, p));
            } else if among(marks@, marks@.len() as int, p) {
                assert(false);
            }
        }
    }

    /// Paints the cells of `hazard` that hold no snake.
    pub fn set_hazards(&mut self, hazard: &Vec<Point>)
        requires
            old(self).wf(),
        ensures
            final(self).wf(),
            final(self)@.same_frame(old(self)@),
            forall|p: Point|
                old(self)@.in_bounds(p) ==> #[trigger] final(self)@.value(p) == if hazard@.contains(p)
                    && !old(self)@.value(p).is_snake() {
                    GridObject::Hazard
                } else {
                    old(self)@.value(p)
                },
    {
        self.set_unless_snake(hazard, GridObject::Hazard)
    }

    /// Marks the cells of `collision` that hold no snake as a risk of
    /// weight `hp`.
    pub fn set_collision_chance(&mut self, collision: &Vec<Point>, hp: i32)
        requires
            old(self).wf(),
        ensures
            final(self).wf(),
            final(self)@.same_frame(old(self)@),
            forall|p: Point|
                old(self)@.in_bounds(p) ==> #[trigger] final(self)@.value(p) == if collision@.contains(p)
                    && !old(self)@.value(p).is_snake() {
                    GridObject::Collisionchance(hp)
                } else {
                    old(self)@.value(p)
                },
    {
        self.set_unless_snake(collision, GridObject::Collisionchance(hp))
    }

    /// From now on paths may lead over hazards.
    pub fn ignore_hazard(&mut self)
        ensures
            final(self)@ == (GridModel { ignore_hazard: true, ..old(self)@ }),
    {
        self.ignore_hazard = true;
    }

    pub fn get_width(&self) -> (w: usize)
        ensures
            w == self@.width,
    {
        self.width
    }

    pub fn get_height(&self) -> (h: usize)
        ensures
            h == self@.height,
    {
        self.height
    }
}

} // verus!
