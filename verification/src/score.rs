//! What the score of a board is made of. The score itself is a product of
//! ratios; this module counts the whole numbers that the ratios are made
//! of.

use vstd::prelude::*;
use crate::area::{is_area_of, Area};
use crate::board::{Board, BoardModel};
use crate::point::Point;
use crate::route::{is_least_cost, no_route};

verus! {

/// The distance between the heads of the snakes `me` and `j`.
pub open spec fn head_dist(b: BoardModel, me: int, j: int) -> int {
    b.snakes[me].head().manhattan(b.snakes[j].head())
}

/// One, and the distances from the head of `me` to the heads of the other
/// snakes among the first `n`.
pub open spec fn dist_total(b: BoardModel, me: int, n: int) -> int
    decreases n,
{
    if n <= 0 {
        1
    } else {
        dist_total(b, me, n - 1) + if n - 1 == me {
            0
        } else {
            head_dist(b, me, n - 1)
        }
    }
}

/// One, and the distances from the head of `me` to the heads of the
/// shorter snakes among the first `n`.
pub open spec fn dist_smaller(b: BoardModel, me: int, n: int) -> int
    decreases n,
{
    if n <= 0 {
        1
    } else {
        dist_smaller(b, me, n - 1) + if n - 1 != me && b.snakes[n - 1].size() < b.snakes[me].size() {
            head_dist(b, me, n - 1)
        } else {
            0
        }
    }
}

/// One, and the distances from the head of `me` to the heads of the other
/// snakes among the first `n` that are no shorter.
pub open spec fn dist_bigger(b: BoardModel, me: int, n: int) -> int
    decreases n,
{
    if n <= 0 {
        1
    } else {
        dist_bigger(b, me, n - 1) + if n - 1 != me && b.snakes[n - 1].size() >= b.snakes[me].size() {
            head_dist(b, me, n - 1)
        } else {
            0
        }
    }
}

/// How many of the first `n` snakes are no threat in a meeting of heads:
/// `me` itself, the shorter ones, and those whose head is more than two
/// steps away.
pub open spec fn harmless(b: BoardModel, me: int, n: int) -> int
    decreases n,
{
    if n <= 0 {
        0
    } else {
        harmless(b, me, n - 1) + if n - 1 == me || b.snakes[n - 1].size() < b.snakes[me].size()
            || head_dist(b, me, n - 1) > 2 {
            1int
        } else {
            0int
        }
    }
}

/// The lengths of the first `n` snakes together.
pub open spec fn total_length(b: BoardModel, n: int) -> int
    decreases n,
{
    if n <= 0 {
        0
    } else {
        total_length(b, n - 1) + b.snakes[n - 1].size()
    }
}

/// The safe cells in reach of the first `n` snakes together.
pub open spec fn total_safe(areas: Seq<Area>, n: int) -> int
    decreases n,
{
    if n <= 0 {
        0
    } else {
        total_safe(areas, n - 1) + areas[n - 1].safe
    }
}

/// The whole numbers that the score of a board is made of.
#[derive(Debug, Clone, Copy)]
pub struct Factors {
    /// Whether the snake is the only one on the board, and the own one.
    pub solo: bool,
    pub snakes: usize,
    /// The safe cells in reach of the snake.
    pub area: usize,
    /// The safe cells in reach of all snakes together, but no less than
    /// one.
    pub total_area: u128,
    pub health: u8,
    /// The least price of a route to the nearest food in reach; none where
    /// no food is in reach or no route leads to it.
    pub food_cost: Option<usize>,
    pub harmless: usize,
    pub length: usize,
    pub total_length: u128,
    pub total_dist: u128,
    pub smaller_dist: u128,
    pub bigger_dist: u128,
}

impl Factors {
    /// What the factors of the snake `me` on the board `b` are, but for the
    /// room and the food.
    pub open spec fn counts(self, b: BoardModel, me: int) -> bool {
        let n = b.snakes.len() as int;
        &&& self.solo == (me == 0 && n == 1)
        &&& self.snakes == n
        &&& self.health == b.snakes[me].health
        &&& self.harmless == harmless(b, me, n)
        &&& self.length == b.snakes[me].size()
        &&& self.total_length == total_length(b, n)
        &&& self.total_dist == dist_total(b, me, n)
        &&& self.smaller_dist == dist_smaller(b, me, n)
        &&& self.bigger_dist == dist_bigger(b, me, n)
    }

    /// What the factors say of the room and the food: the room is that of
    /// the snake among the rooms of all, and the price of the food is the
    /// least price of a route to the nearest food in reach.
    pub open spec fn rooms(self, b: BoardModel, me: int, hazards: Seq<Point>) -> bool {
        exists|areas: Seq<Area>|
            #![trigger total_safe(areas, areas.len() as int)]
            {
                &&& areas.len() == b.snakes.len()
                &&& forall|i: int|
                    0 <= i < areas.len() ==> is_area_of(
                        b,
                        b.snakes[i].head(),
                        hazards,
                        #[trigger] areas[i],
                    )
                &&& self.area == areas[me].safe
                &&& self.total_area == if total_safe(areas, areas.len() as int) < 1 {
                    1
                } else {
                    total_safe(areas, areas.len() as int)
                }
                &&& match areas[me].food {
                    Some(f) => match self.food_cost {
                        Some(cost) => is_least_cost(b, hazards, b.snakes[me].head(), f, cost as int),
                        None => no_route(b, b.snakes[me].head(), f),
                    },
                    None => self.food_cost is None,
                }
            }
    }
}

proof fn lemma_sums(b: BoardModel, me: int, n: int)
    requires
        0 <= n <= b.snakes.len(),
        0 <= me < b.snakes.len(),
    ensures
        1 <= dist_total(b, me, n) <= 1 + 0x2_0000_0000 * n,
        1 <= dist_smaller(b, me, n) <= 1 + 0x2_0000_0000 * n,
        1 <= dist_bigger(b, me, n) <= 1 + 0x2_0000_0000 * n,
        0 <= harmless(b, me, n) <= n,
    decreases n,
{
    if n > 0 {
        lemma_sums(b, me, n - 1);
    }
}

/// The whole numbers that the score of the snake `snake_index` on `board`
/// is made of.
pub fn heuristic(board: &Board, snake_index: usize, hazards: &Vec<Point>) -> (f: Factors)
    requires
        board.wf(),
        snake_index < board.snakes.len(),
    ensures
        f.counts(board@, snake_index as int),
        f.rooms(board@, snake_index as int, hazards@),
{
    let ghost b = board@;
    let ghost me = snake_index as int;
    let n = board.snakes.len();
    let snake = &board.snakes[snake_index];
    assert(b.snakes[me].wf() && b.snakes[me].head().can_step());
    let head = snake.body.nodes[0];
    let len = snake.size();

    let areas = board.get_area(hazards);
    let mut total: u128 = 0;
    let mut i: usize = 0;
    while i < areas.len()
        invariant
            i <= areas.len(),
            total == total_safe(areas@, i as int),
            total <= i * 0x1_0000_0000_0000_0000,
        decreases areas.len() - i,
    {
        total = total + areas[i].safe as u128;
        i += 1;
    }
    let total_area: u128 = if total < 1 {
        1
    } else {
        total
    };
    let area = areas[snake_index];
    let food_cost = match area.food {
        Some(f) => match board.astar(head, f, hazards) {
            Some((cost, _)) => Some(cost),
            None => None,
        },
        None => None,
    };

    let mut harmless_count: usize = 0;
    let mut total_length_sum: u128 = 0;
    let mut total_dist: u128 = 1;
    let mut smaller_dist: u128 = 1;
    let mut bigger_dist: u128 = 1;
    let mut j: usize = 0;
    while j < n
        invariant
            j <= n,
            n == board.snakes.len(),
            b == board@,
            me == snake_index,
            snake_index < n,
            head == b.snakes[me].head(),
            len == b.snakes[me].size(),
            board.wf(),
            harmless_count == harmless(b, me, j as int),
            total_length_sum == total_length(b, j as int),
            total_length_sum <= j * 0x1_0000_0000_0000_0000,
            total_dist == dist_total(b, me, j as int),
            smaller_dist == dist_smaller(b, me, j as int),
            bigger_dist == dist_bigger(b, me, j as int),
        decreases n - j,
    {
        proof {
            lemma_sums(b, me, j as int);
            lemma_sums(b, me, j + 1);
        }
        let other = &board.snakes[j];
        assert(b.snakes[j as int].wf());
        let d = head.manhattan_wide(&other.body.nodes[0]);
        let size = other.size();
        total_length_sum = total_length_sum + size as u128;
        if j == snake_index || size < len || d > 2 {
            harmless_count += 1;
        }
        if j != snake_index {
            total_dist = total_dist + d as u128;
            if size < len {
                smaller_dist = smaller_dist + d as u128;
            } else {
                bigger_dist = bigger_dist + d as u128;
            }
        }
        j += 1;
    }
    let f = Factors {
        solo: snake_index == 0 && n == 1,
        snakes: n,
        area: area.safe,
        total_area,
        health: snake.health,
        food_cost,
        harmless: harmless_count,
        length: len,
        total_length: total_length_sum,
        total_dist,
        smaller_dist,
        bigger_dist,
    };
    assert(f.rooms(b, me, hazards@)) by {
        let witness = areas@;
        assert(total_safe(witness, witness.len() as int) == total);
    }
    f
}

} // verus!
