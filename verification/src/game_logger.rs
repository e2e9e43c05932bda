//! The picture of a board for the log: what each cell shows, and which
//! cells hold a head or a hazard.

use vstd::prelude::*;
use crate::domove::{last_body, lemma_last_body};
use crate::grid::{among, last_owner};
use crate::input::{size_of, GameInfo};
use crate::point::Point;

verus! {

/// What a cell of the picture shows.
#[derive(Debug, Copy, Clone, PartialEq, Eq, Structural)]
pub enum GridObjectLog {
    Empty,
    Food,
    /// A segment of the snake with the given index.
    Snake(usize),
}

impl GridObjectLog {
    /// The sign that the cell is drawn with: one for each of the first
    /// eight snakes, and one for all the others.
    pub fn symbol(&self) -> (s: &'static str)
        ensures
            *self == GridObjectLog::Empty ==> s@ == "◦"@,
            *self == GridObjectLog::Food ==> s@ == "⚕"@,
            *self == GridObjectLog::Snake(0) ==> s@ == "■"@,
            *self == GridObjectLog::Snake(1) ==> s@ == "⌀"@,
            *self == GridObjectLog::Snake(2) ==> s@ == "●"@,
            *self == GridObjectLog::Snake(3) ==> s@ == "⍟"@,
            *self == GridObjectLog::Snake(4) ==> s@ == "◘"@,
            *self == GridObjectLog::Snake(5) ==> s@ == "☺"@,
            *self == GridObjectLog::Snake(6) ==> s@ == "□"@,
            *self == GridObjectLog::Snake(7) ==> s@ == "☻"@,
            (*self is Snake && self->Snake_0 > 7) ==> s@ == "S"@,
    {
        match self {
            GridObjectLog::Empty => "◦",
            GridObjectLog::Food => "⚕",
            GridObjectLog::Snake(n) => {
                if *n == 0 {
                    "■"
                } else if *n == 1 {
                    "⌀"
                } else if *n == 2 {
                    "●"
                } else if *n == 3 {
                    "⍟"
                } else if *n == 4 {
                    "◘"
                } else if *n == 5 {
                    "☺"
                } else if *n == 6 {
                    "□"
                } else if *n == 7 {
                    "☻"
                } else {
                    "S"
                }
            },
        }
    }
}

/// What a picture is: its size, its cells row by row from the bottom, and
/// the indices of the cells that hold a head or a hazard.
pub struct GridLogModel {
    pub height: nat,
    pub width: nat,
    pub cells: Seq<GridObjectLog>,
    pub heads: Seq<usize>,
    pub hazards: Seq<usize>,
}

impl GridLogModel {
    pub open spec fn wf(self) -> bool {
        self.cells.len() == self.height * self.width
    }

    pub open spec fn in_bounds(self, p: Point) -> bool {
        0 <= p.x < self.width && 0 <= p.y < self.height
    }

    /// The index of the cell at `p`.
    pub open spec fn index(self, p: Point) -> int {
        p.y * self.width + p.x
    }

    /// What the picture shows at `p`, a point of the board.
    pub open spec fn value(self, p: Point) -> GridObjectLog {
        self.cells[self.index(p)]
    }
}

/// The indices of those of the first `n` points that lie on the board, in
/// their order.
pub open spec fn indices_on_board(g: GridLogModel, points: Seq<Point>, n: int) -> Seq<usize>
    decreases n,
{
    if n <= 0 {
        Seq::empty()
    } else if g.in_bounds(points[n - 1]) {
        indices_on_board(g, points, n - 1).push(g.index(points[n - 1]) as usize)
    } else {
        indices_on_board(g, points, n - 1)
    }
}

/// What the picture of a snapshot shows at `p`: the last snake that lies
/// there, or else food, or nothing.
pub open spec fn log_cell(info: GameInfo, p: Point) -> GridObjectLog {
    match last_body(info.board.snakes@, p, info.board.snakes@.len() as int) {
        Some(k) => GridObjectLog::Snake(k as usize),
        None => if info.board.food@.contains(p) {
            GridObjectLog::Food
        } else {
            GridObjectLog::Empty
        },
    }
}

proof fn lemma_log_index(g: GridLogModel, p: Point, q: Point)
    requires
        g.wf(),
        g.in_bounds(p),
        g.in_bounds(q),
    ensures
        0 <= g.index(p) < g.cells.len(),
        g.index(p) == g.index(q) ==> p == q,
{
    let (w, h) = (g.width as int, g.height as int);
    let (px, py, qx, qy) = (p.x as int, p.y as int, q.x as int, q.y as int);
    assert(0 <= py * w + px < h * w) by (nonlinear_arith)
        requires
            0 <= px < w,
            0 <= py < h,
    ;
    if py * w + px == qy * w + qx {
        assert(py == qy) by (nonlinear_arith)
            requires
                py * w + px == qy * w + qx,
                0 <= px < w,
                0 <= qx < w,
        ;
    }
}

/// The picture of a board.
pub struct GameGridLog {
    height: usize,
    width: usize,
    data: Vec<GridObjectLog>,
    snake_heads: Vec<usize>,
    hazards: Vec<usize>,
}

impl View for GameGridLog {
    type V = GridLogModel;

    closed spec fn view(&self) -> GridLogModel {
        GridLogModel {
            height: self.height as nat,
            width: self.width as nat,
            cells: self.data@,
            heads: self.snake_heads@,
            hazards: self.hazards@,
        }
    }
}

impl GameGridLog {
    pub open spec fn wf(&self) -> bool {
        self@.wf()
    }

    /// Same size, heads and hazards.
    pub open spec fn same_frame(&self, other: GridLogModel) -> bool {
        &&& self@.height == other.height
        &&& self@.width == other.width
        &&& self@.heads == other.heads
        &&& self@.hazards == other.hazards
    }

    /// An empty picture of `dimensions.0` rows and `dimensions.1` columns.
    pub fn new(dimensions: (usize, usize)) -> (g: GameGridLog)
        requires
            dimensions.0 * dimensions.1 <= usize::MAX,
        ensures
            g.wf(),
            g@.height == dimensions.0,
            g@.width == dimensions.1,
            g@.heads.len() == 0,
            g@.hazards.len() == 0,
            forall|i: int| 0 <= i < g@.cells.len() ==> g@.cells[i] == GridObjectLog::Empty,
    {
        GameGridLog {
            height: dimensions.0,
            width: dimensions.1,
            data: vec![GridObjectLog::Empty; dimensions.0 * dimensions.1],
            snake_heads: Vec::new(),
            hazards: Vec::new(),
        }
    }

    /// Whether `pos` lies on the board.
    pub fn is_in_bounds(&self, pos: &Point) -> (b: bool)
        ensures
            b == self@.in_bounds(*pos),
    {
        0 <= pos.x && (pos.x as usize) < self.width && 0 <= pos.y && (pos.y as usize) < self.height
    }

    /// The index of the cell at `pos`, if `pos` lies on the board.
    pub fn get_index(&self, pos: &Point) -> (r: Option<usize>)
        requires
            self.wf(),
        ensures
            r is Some <==> self@.in_bounds(*pos),
            r is Some ==> r->0 == self@.index(*pos) && r->0 < self@.cells.len(),
    {
        if !self.is_in_bounds(pos) {
            None
        } else {
            let y = pos.y as usize;
            let x = pos.x as usize;
            let n = self.data.len();
            proof {
                lemma_log_index(self@, *pos, *pos);
                let (yi, wi, xi) = (y as int, self.width as int, x as int);
                assert(self@.index(*pos) == yi * wi + xi);
                assert(0 <= yi * wi) by (nonlinear_arith)
                    requires
                        0 <= yi,
                        0 <= wi,
                ;
                assert(yi * wi + xi < n);
            }
            Some(y * self.width + x)
        }
    }

    /// Draws `obj` at `pos`, if `pos` lies on the board and either
    /// `over_all` is set or the cell is empty.
    fn put(&mut self, pos: &Point, obj: GridObjectLog, over_all: bool)
        requires
            old(self).wf(),
        ensures
            final(self).wf(),
            final(self).same_frame(old(self)@),
            forall|p: Point|
                old(self)@.in_bounds(p) ==> #[trigger] final(self)@.value(p) == if p == *pos && (
                over_all || old(self)@.value(p) == GridObjectLog::Empty) {
                    obj
                } else {
                    old(self)@.value(p)
                },
    {
        match self.get_index(pos) {
            Some(i) => {
                if over_all || self.data[i] == GridObjectLog::Empty {
                    self.data[i] = obj;
                    assert forall|p: Point| old(self)@.in_bounds(p) implies #[trigger] self@.value(
                        p,
                    ) == if p == *pos {
                        obj
                    } else {
                        old(self)@.value(p)
                    } by {
                        lemma_log_index(old(self)@, p, *pos);
                    }
                }
            },
            None => {},
        }
    }

    /// Draws each body with the index of its snake; where two bodies
    /// overlap the later snake stays.
    pub fn set_snakes(&mut self, snakes: Vec<Vec<Point>>)
        requires
            old(self).wf(),
        ensures
            final(self).wf(),
            final(self).same_frame(old(self)@),
            forall|p: Point|
                old(self)@.in_bounds(p) ==> #[trigger] final(self)@.value(p) == match last_owner(
                    snakes@,
                    p,
                    snakes@.len() as int,
                ) {
                    Some(k) => GridObjectLog::Snake(k as usize),
                    None => old(self)@.value(p),
                },
    {
        let mut k: usize = 0;
        while k < snakes.len()
            invariant
                k <= snakes.len(),
                self.wf(),
                self.same_frame(old(self)@),
                forall|p: Point|
                    old(self)@.in_bounds(p) ==> #[trigger] self@.value(p) == match last_owner(
                        snakes@,
                        p,
                        k as int,
                    ) {
                        Some(o) => GridObjectLog::Snake(o as usize),
                        None => old(self)@.value(p),
                    },
            decreases snakes.len() - k,
        {
            let ghost before = self@;
            let body = &snakes[k];
            let mut j: usize = 0;
            while j < body.len()
                invariant
                    j <= body.len(),
                    k < snakes.len(),
                    body == &snakes[k as int],
                    self.wf(),
                    self.same_frame(before),
                    self.same_frame(old(self)@),
                    forall|p: Point|
                        before.in_bounds(p) ==> #[trigger] self@.value(p) == if among(
                            body@,
                            j as int,
                            p,
                        ) {
                            GridObjectLog::Snake(k)
                        } else {
                            before.value(p)
                        },
                decreases body.len() - j,
            {
                let ghost mid = self@;
                self.put(&body[j], GridObjectLog::Snake(k), true);
                assert forall|p: Point| before.in_bounds(p) implies #[trigger] self@.value(p)
                    == if among(body@, j + 1, p) {
                    GridObjectLog::Snake(k)
                } else {
                    before.value(p)
                } by {
                    assert(mid.in_bounds(p));
                    if p == body@[j as int] {
                        assert(among(body@, j + 1, p));
                    } else if among(body@, j as int, p) {
                        assert(among(body@, j + 1, p));
                    } else if among(body@, j + 1, p) {
                        assert(false);
                    }
                }
                j += 1;
            }
            assert forall|p: Point| old(self)@.in_bounds(p) implies #[trigger] self@.value(p)
                == match last_owner(snakes@, p, k + 1) {
                Some(o) => GridObjectLog::Snake(o as usize),
                None => old(self)@.value(p),
            } by {
                assert(before.in_bounds(p));
                if body@.contains(p) {
                    assert(among(body@, body@.len() as int, p));
                } else if among(body@, body@.len() as int, p) {
                    assert(false);
                }
            }
            k += 1;
        }
    }

    /// Draws the food on the cells that are empty.
    pub fn set_food(&mut self, food: &Vec<Point>)
        requires
            old(self).wf(),
        ensures
            final(self).wf(),
            final(self).same_frame(old(self)@),
            forall|p: Point|
                old(self)@.in_bounds(p) ==> #[trigger] final(self)@.value(p) == if food@.contains(p)
                    && old(self)@.value(p) == GridObjectLog::Empty {
                    GridObjectLog::Food
                } else {
                    old(self)@.value(p)
                },
    {
        let mut k: usize = 0;
        while k < food.len()
            invariant
                k <= food.len(),
                self.wf(),
                self.same_frame(old(self)@),
                forall|p: Point|
                    old(self)@.in_bounds(p) ==> #[trigger] self@.value(p) == if among(
                        food@,
                        k as int,
                        p,
                    ) && old(self)@.value(p) == GridObjectLog::Empty {
                        GridObjectLog::Food
                    } else {
                        old(self)@.value(p)
                    },
            decreases food.len() - k,
        {
            let ghost mid = self@;
            self.put(&food[k], GridObjectLog::Food, false);
            assert forall|p: Point| old(self)@.in_bounds(p) implies #[trigger] self@.value(p)
                == if among(food@, k + 1, p) && old(self)@.value(p) == GridObjectLog::Empty {
                GridObjectLog::Food
            } else {
                old(self)@.value(p)
            } by {
                assert(mid.in_bounds(p));
                if p == food@[k as int] {
                    assert(among(food@, k + 1, p));
                } else if among(food@, k as int, p) {
                    assert(among(food@, k + 1, p));
                } else if among(food@, k + 1, p) {
                    assert(false);
                }
            }
            k += 1;
        }
        assert forall|p: Point| old(self)@.in_bounds(p) implies #[trigger] self@.value(p)
            == if food@.contains(p) && old(self)@.value(p) == GridObjectLog::Empty {
            GridObjectLog::Food
        } else {
            old(self)@.value(p)
        } by {
            if food@.contains(p) {
                assert(among(food@, food@.len() as int, p));
            } else if among(food@, food@.len() as int, p) {
                assert(false);
            }
        }
    }

    /// The indices of those of `points` that lie on the board.
    fn indices(&self, points: &Vec<Point>) -> (r: Vec<usize>)
        requires
            self.wf(),
        ensures
            r@ == indices_on_board(self@, points@, points@.len() as int),
    {
        let mut r: Vec<usize> = Vec::new();
        let mut k: usize = 0;
        while k < points.len()
            invariant
                k <= points.len(),
                self.wf(),
                r@ == indices_on_board(self@, points@, k as int),
            decreases points.len() - k,
        {
            match self.get_index(&points[k]) {
                Some(i) => r.push(i),
                None => {},
            }
            k += 1;
        }
        r
    }

    /// The picture of a snapshot: the snakes, the food where no snake lies,
    /// and the cells that hold a hazard or a head.
    pub fn from_api(gameinfo: &GameInfo) -> (grid: GameGridLog)
        requires
            size_of(gameinfo.board.height) * size_of(gameinfo.board.width) <= usize::MAX,
        ensures
            grid.wf(),
            grid@.height == size_of(gameinfo.board.height),
            grid@.width == size_of(gameinfo.board.width),
            forall|p: Point| grid@.in_bounds(p) ==> #[trigger] grid@.value(p) == log_cell(*gameinfo, p),
            grid@.hazards == indices_on_board(
                grid@,
                gameinfo.board.hazards@,
                gameinfo.board.hazards@.len() as int,
            ),
            exists|heads: Seq<Point>|
                heads.len() == gameinfo.board.snakes@.len() && (forall|i: int|
                    0 <= i < heads.len() ==> #[trigger] heads[i] == gameinfo.board.snakes@[i].head)
                    && grid@.heads == #[trigger] indices_on_board(grid@, heads, heads.len() as int),
    {
        let dim = gameinfo.get_board_dimensions();
        let mut grid = GameGridLog::new(dim);
        let ghost g0 = grid@;
        let bodies = gameinfo.get_snake_bodies();
        let ghost bodies_model = bodies@;
        grid.set_snakes(bodies);
        let ghost g1 = grid@;
        grid.set_food(&gameinfo.board.food);
        let hazards = grid.indices(gameinfo.get_hazards());
        let snake_heads = gameinfo.get_heads();
        let heads = grid.indices(&snake_heads);
        let ghost cells = grid@;
        grid.hazards = hazards;
        grid.snake_heads = heads;
        proof {
            let frame = grid@;
            assert(frame.cells == cells.cells && frame.width == cells.width && frame.height
                == cells.height);
            assert forall|p: Point| grid@.in_bounds(p) implies #[trigger] grid@.value(p)
                == log_cell(*gameinfo, p) by {
                lemma_log_index(g0, p, p);
                assert(g0.value(p) == GridObjectLog::Empty);
                lemma_last_body(
                    gameinfo.board.snakes@,
                    bodies_model,
                    p,
                    gameinfo.board.snakes@.len() as int,
                );
                assert(g1.in_bounds(p));
                assert(cells.value(p) == grid@.value(p));
            }
            lemma_same_indices(
                cells,
                frame,
                gameinfo.board.hazards@,
                gameinfo.board.hazards@.len() as int,
            );
            lemma_same_indices(cells, frame, snake_heads@, snake_heads@.len() as int);
        }
        grid
    }

    pub fn get_width(&self) -> (w: usize)
        ensures
            w == self@.width,
    {
        self.width
    }

    pub fn get_height(&self) -> (h: usize)
        ensures
            h == self@.height,
    {
        self.height
    }

    /// The number of cells.
    pub fn len(&self) -> (n: usize)
        ensures
            n == self@.cells.len(),
    {
        self.data.len()
    }

    /// What the cell with index `i` shows.
    pub fn get_cell(&self, i: usize) -> (c: GridObjectLog)
        requires
            i < self@.cells.len(),
        ensures
            c == self@.cells[i as int],
    {
        self.data[i]
    }

    /// Whether the cell with index `i` holds a head.
    pub fn is_head(&self, i: usize) -> (b: bool)
        ensures
            b == self@.heads.contains(i),
    {
        contains_index(&self.snake_heads, i)
    }

    /// Whether the cell with index `i` holds a hazard.
    pub fn is_hazard(&self, i: usize) -> (b: bool)
        ensures
            b == self@.hazards.contains(i),
    {
        contains_index(&self.hazards, i)
    }
}

/// Whether `v` holds `i`.
fn contains_index(v: &Vec<usize>, i: usize) -> (b: bool)
    ensures
        b == v@.contains(i),
{
    let mut k: usize = 0;
    while k < v.len()
        invariant
            k <= v.len(),
            forall|j: int| 0 <= j < k ==> v@[j] != i,
        decreases v.len() - k,
    {
        if v[k] == i {
            return true;
        }
        k += 1;
    }
    false
}

proof fn lemma_same_indices(a: GridLogModel, b: GridLogModel, points: Seq<Point>, n: int)
    requires
        a.width == b.width,
        a.height == b.height,
        0 <= n <= points.len(),
    ensures
        indices_on_board(a, points, n) == indices_on_board(b, points, n),
    decreases n,
{
    if n > 0 {
        lemma_same_indices(a, b, points, n - 1);
    }
}

/// One line of the list of snakes under the picture.
#[derive(Debug)]
pub struct LegendEntry {
    pub index: usize,
    pub name: String,
    pub health: i32,
}

/// The picture of a board with the list of its snakes and the turn.
pub struct GameStateLog {
    grid: GameGridLog,
    snake_legend: Vec<LegendEntry>,
    game_legend: i32,
}

impl GameStateLog {
    pub closed spec fn grid(&self) -> GameGridLog {
        self.grid
    }

    pub closed spec fn legend(&self) -> Seq<LegendEntry> {
        self.snake_legend@
    }

    pub closed spec fn turn(&self) -> i32 {
        self.game_legend
    }

    /// The picture of a snapshot, the list of its snakes with their names
    /// and their health, and its turn.
    pub fn from_api(data: &GameInfo) -> (log: GameStateLog)
        requires
            size_of(data.board.height) * size_of(data.board.width) <= usize::MAX,
        ensures
            log.grid().wf(),
            forall|p: Point|
                log.grid()@.in_bounds(p) ==> #[trigger] log.grid()@.value(p) == log_cell(*data, p),
            log.grid()@.height == size_of(data.board.height),
            log.grid()@.width == size_of(data.board.width),
            log.turn() == data.turn,
            log.legend().len() == data.board.snakes@.len(),
            forall|i: int|
                0 <= i < log.legend().len() ==> {
                    let e = #[trigger] log.legend()[i];
                    e.index == i && e.name@ == data.board.snakes@[i].name@ && e.health
                        == data.board.snakes@[i].health
                },
    {
        let grid = GameGridLog::from_api(data);
        let mut snake_legend: Vec<LegendEntry> = Vec::new();
        let mut i: usize = 0;
        while i < data.board.snakes.len()
            invariant
                i <= data.board.snakes.len(),
                snake_legend.len() == i,
                forall|j: int|
                    0 <= j < i ==> {
                        let e = #[trigger] snake_legend@[j];
                        e.index == j && e.name@ == data.board.snakes@[j].name@ && e.health
                            == data.board.snakes@[j].health
                    },
            decreases data.board.snakes.len() - i,
        {
            let snake = &data.board.snakes[i];
            snake_legend.push(
                LegendEntry { index: i, name: snake.name.clone(), health: snake.health },
            );
            i += 1;
        }
        GameStateLog { grid, snake_legend, game_legend: data.get_turn() }
    }

    pub fn get_grid(&self) -> (g: &GameGridLog)
        ensures
            *g == self.grid(),
    {
        &self.grid
    }

    pub fn get_legend(&self) -> (l: &Vec<LegendEntry>)
        ensures
            l@ == self.legend(),
    {
        &self.snake_legend
    }

    pub fn get_turn(&self) -> (t: i32)
        ensures
            t == self.turn(),
    {
        self.game_legend
    }
}

} // verus!
