//! The snapshot of a turn as the protocol layer hands it over.

use vstd::prelude::*;
use crate::point::Point;

verus! {

/// The game that a snapshot belongs to.
#[derive(Debug)]
pub struct GameData {
    pub id: String,
    /// Time that a turn may take, in milliseconds.
    pub timeout: i32,
}

/// The board as the snapshot describes it.
#[derive(Debug)]
pub struct Board {
    pub height: i32,
    pub width: i32,
    pub food: Vec<Point>,
    pub hazards: Vec<Point>,
    pub snakes: Vec<ApiSnake>,
}

/// A snake as the snapshot describes it.
#[derive(Debug)]
pub struct ApiSnake {
    pub id: String,
    pub name: String,
    pub health: i32,
    /// The body, head first.
    pub body: Vec<Point>,
    pub head: Point,
    pub length: i32,
    pub shout: String,
}

/// One turn's snapshot.
#[derive(Debug)]
pub struct GameInfo {
    pub game: GameData,
    pub turn: i32,
    pub board: Board,
    pub you: ApiSnake,
}

/// A size as a count: a negative size counts as zero.
pub open spec fn size_of(v: i32) -> nat {
    if v < 0 {
        0
    } else {
        v as nat
    }
}

/// The first `k` points of `s` without those that are `p`.
pub open spec fn without(s: Seq<Point>, p: Option<Point>, k: int) -> Seq<Point>
    decreases k,
{
    if k <= 0 {
        Seq::empty()
    } else if p == Some(s[k - 1]) {
        without(s, p, k - 1)
    } else {
        without(s, p, k - 1).push(s[k - 1])
    }
}

impl ApiSnake {
    /// The second point of the body.
    pub open spec fn neck(self) -> Option<Point> {
        if self.body@.len() >= 2 {
            Some(self.body@[1])
        } else {
            None
        }
    }

    /// Whether a head-on meeting with this snake would be lost by `you`:
    /// it is another snake and at least as long.
    pub open spec fn threatens(self, you: ApiSnake) -> bool {
        self.length >= you.length && self.id@ != you.id@
    }

    /// The cells that the head may enter next: its neighbours but the neck.
    pub open spec fn next_head_cells(self) -> Seq<Point> {
        without(self.head.neighbours(), self.neck(), 4)
    }
}

/// The cells that the heads of the threatening snakes among the first `n`
/// may enter next, snake by snake.
pub open spec fn collision_hazard(snakes: Seq<ApiSnake>, you: ApiSnake, n: int) -> Seq<Point>
    decreases n,
{
    if n <= 0 {
        Seq::empty()
    } else if snakes[n - 1].threatens(you) {
        collision_hazard(snakes, you, n - 1) + snakes[n - 1].next_head_cells()
    } else {
        collision_hazard(snakes, you, n - 1)
    }
}

/// The index that `get_my_index` gives when the own snake is not on the
/// board.
pub const NO_INDEX: usize = 101;

impl GameInfo {
    /// `i` is the first index of a snake on the board with the own id.
    pub open spec fn is_my_index(self, i: int) -> bool {
        &&& 0 <= i < self.board.snakes@.len()
        &&& self.board.snakes@[i].id@ == self.you.id@
        &&& forall|j: int| 0 <= j < i ==> self.board.snakes@[j].id@ != self.you.id@
    }

    /// Rows and columns of the board, in this order.
    pub fn get_board_dimensions(&self) -> (dim: (usize, usize))
        ensures
            dim.0 == size_of(self.board.height),
            dim.1 == size_of(self.board.width),
    {
        let h: usize = if self.board.height < 0 {
            0
        } else {
            self.board.height as usize
        };
        let w: usize = if self.board.width < 0 {
            0
        } else {
            self.board.width as usize
        };
        (h, w)
    }

    pub fn get_my_head(&self) -> (p: Point)
        ensures
            p == self.you.head,
    {
        self.you.head
    }

    pub fn get_my_health(&self) -> (h: i32)
        ensures
            h == self.you.health,
    {
        self.you.health
    }

    /// The index of the own snake among the snakes of the board, or
    /// [`NO_INDEX`] when it is not there.
    pub fn get_my_index(&self) -> (i: usize)
        ensures
            self.is_my_index(i as int) || (i == NO_INDEX && forall|j: int|
                0 <= j < self.board.snakes@.len() ==> self.board.snakes@[j].id@ != self.you.id@),
    {
        let mut i: usize = 0;
        while i < self.board.snakes.len()
            invariant
                i <= self.board.snakes.len(),
                forall|j: int| 0 <= j < i ==> self.board.snakes@[j].id@ != self.you.id@,
            decreases self.board.snakes.len() - i,
        {
            if self.board.snakes[i].id == self.you.id {
                return i;
            }
            i += 1;
        }
        NO_INDEX
    }

    /// The bodies of the snakes, in the order of the snapshot.
    pub fn get_snake_bodies(&self) -> (bodies: Vec<Vec<Point>>)
        ensures
            bodies.len() == self.board.snakes.len(),
            forall|i: int| 0 <= i < bodies.len() ==> #[trigger] bodies[i]@ == self.board.snakes[i].body@,
    {
        let mut bodies: Vec<Vec<Point>> = Vec::new();
        let mut i: usize = 0;
        while i < self.board.snakes.len()
            invariant
                i <= self.board.snakes.len(),
                bodies.len() == i,
                forall|j: int| 0 <= j < i ==> #[trigger] bodies[j]@ == self.board.snakes[j].body@,
            decreases self.board.snakes.len() - i,
        {
            let body = self.board.snakes[i].body.clone();
            assert(body@ =~= self.board.snakes[i as int].body@);
            bodies.push(body);
            i += 1;
        }
        bodies
    }

    pub fn get_food(&self) -> (food: Vec<Point>)
        ensures
            food@ == self.board.food@,
    {
        let food = self.board.food.clone();
        assert(food@ =~= self.board.food@);
        food
    }

    pub fn get_hazards(&self) -> (hazards: &Vec<Point>)
        ensures
            hazards == &self.board.hazards,
    {
        &self.board.hazards
    }

    /// The cells that the head of a snake that is no shorter than the own
    /// one may enter next.
    pub fn get_head_collision_hazard(&self) -> (result: Vec<Point>)
        requires
            forall|i: int|
                0 <= i < self.board.snakes@.len() && (#[trigger] self.board.snakes@[i]).threatens(
                    self.you,
                ) ==> self.board.snakes@[i].head.can_step(),
        ensures
            result@ == collision_hazard(
                self.board.snakes@,
                self.you,
                self.board.snakes@.len() as int,
            ),
    {
        let mut result: Vec<Point> = Vec::new();
        let mut i: usize = 0;
        while i < self.board.snakes.len()
            invariant
                i <= self.board.snakes.len(),
                result@ == collision_hazard(self.board.snakes@, self.you, i as int),
                forall|i: int|
                    0 <= i < self.board.snakes@.len() && (
                    #[trigger] self.board.snakes@[i]).threatens(self.you)
                        ==> self.board.snakes@[i].head.can_step(),
            decreases self.board.snakes.len() - i,
        {
            let snake = &self.board.snakes[i];
            if snake.length >= self.you.length && snake.id != self.you.id {
                assert(snake.threatens(self.you));
                let ngbs = snake.head.get_neighbours();
                let ghost before = result@;
                let mut k: usize = 0;
                while k < 4
                    invariant
                        k <= 4,
                        ngbs@ == snake.head.neighbours(),
                        ngbs.len() == 4,
                        result@ == before + without(ngbs@, snake.neck(), k as int),
                    decreases 4 - k,
                {
                    let n = ngbs[k];
                    if snake.body.len() >= 2 && n == snake.body[1] {
                    } else {
                        result.push(n);
                        assert(result@ =~= before + without(ngbs@, snake.neck(), k + 1));
                    }
                    k += 1;
                }
            }
            i += 1;
        }
        result
    }

    pub fn get_my_id(&self) -> (id: &str)
        ensures
            id@ == self.you.id@,
    {
        self.you.id.as_str()
    }

    pub fn get_turn(&self) -> (t: i32)
        ensures
            t == self.turn,
    {
        self.turn
    }

    pub fn get_game_id(&self) -> (id: String)
        ensures
            id@ == self.game.id@,
    {
        self.game.id.clone()
    }

    pub fn get_my_length(&self) -> (l: i32)
        ensures
            l == self.you.length,
    {
        self.you.length
    }

    /// The heads of the snakes, in the order of the snapshot.
    pub fn get_heads(&self) -> (heads: Vec<Point>)
        ensures
            heads.len() == self.board.snakes.len(),
            forall|i: int| 0 <= i < heads.len() ==> #[trigger] heads[i] == self.board.snakes[i].head,
    {
        let mut heads: Vec<Point> = Vec::new();
        let mut i: usize = 0;
        while i < self.board.snakes.len()
            invariant
                i <= self.board.snakes.len(),
                heads.len() == i,
                forall|j: int| 0 <= j < i ==> #[trigger] heads[j] == self.board.snakes[j].head,
            decreases self.board.snakes.len() - i,
        {
            heads.push(self.board.snakes[i].head);
            i += 1;
        }
        heads
    }
}

} // verus!
