//! The board and the rules of one tick.

use vstd::prelude::*;
use crate::direction::{all_directions, Direction};
use crate::input::{size_of, ApiSnake, GameInfo};
use crate::point::Point;
use crate::seqs::{
    count_marked, holds, lemma_index_of_first, lemma_retain_unmarked, position, retain_unmarked,
};
use crate::snake::{Snake, SnakeModel};
use crate::status::{Error, ErrorKind};
use std::collections::HashMap;

verus! {

/// Health that a snake loses when its head ends a tick on a hazard.
pub const HAZARD_DAMAGE: u8 = 15;

/// What a search needs for each cell of the board so that no cost
/// overflows.
pub const SEARCH_ROOM: usize = 16;

/// Why a snake left the board.
#[derive(Clone, Copy, PartialEq, Eq, Debug, Structural)]
pub enum CauseOfDeath {
    HeadToHead,
    OtherCollision,
    SelfCollision,
    OutOfBounds,
    OutOfHealth,
}

/// What a board is: its snakes (the first is the own one), its food and its
/// greatest coordinates.
pub struct BoardModel {
    pub snakes: Seq<SnakeModel>,
    pub food: Seq<Point>,
    pub bound: Point,
}

/// Whether `p` lies between the origin and `bound`.
pub open spec fn in_bounds(bound: Point, p: Point) -> bool {
    0 <= p.x <= bound.x && 0 <= p.y <= bound.y
}

/// Whether the body lies on `p` behind its head.
pub open spec fn hits_behind_head(body: Seq<Point>, p: Point) -> bool {
    exists|k: int| 1 <= k < body.len() && body[k] == p
}

/// Whether snake `s` keeps a head from entering `p` within `n` ticks: `p` is
/// no farther from its head than it is long, and the first segment on `p`
/// is not among its last `n`. A margin of the snake's length or more
/// counts every segment as gone.
pub open spec fn blocks(s: SnakeModel, p: Point, n: nat) -> bool {
    &&& p.manhattan(s.head()) <= s.size()
    &&& match s.body.index_of_first(p) {
        Some(i) => i + n < s.size(),
        None => false,
    }
}

/// Whether a head may enter `p`: `p` lies on the board and no snake blocks
/// it.
pub open spec fn move_allowed(b: BoardModel, p: Point, n: nat) -> bool {
    &&& in_bounds(b.bound, p)
    &&& forall|i: int| 0 <= i < b.snakes.len() ==> !blocks(#[trigger] b.snakes[i], p, n)
}

/// Those of the first `k` directions that lead from `p` to a cell that a
/// head may enter.
pub open spec fn allowed_moves(b: BoardModel, p: Point, n: nat, k: int) -> Seq<Direction>
    decreases k,
{
    if k <= 0 {
        Seq::empty()
    } else if move_allowed(b, p.step(all_directions()[k - 1]), n) {
        allowed_moves(b, p, n, k - 1).push(all_directions()[k - 1])
    } else {
        allowed_moves(b, p, n, k - 1)
    }
}

/// A cell that a head may enter with the margin `n` it may enter with any
/// greater one.
pub proof fn lemma_larger_margin(b: BoardModel, q: Point, n: nat, m: nat)
    requires
        n <= m,
        move_allowed(b, q, n),
    ensures
        move_allowed(b, q, m),
{
    assert forall|i: int| 0 <= i < b.snakes.len() implies !blocks(#[trigger] b.snakes[i], q, m) by {
        assert(!blocks(b.snakes[i], q, n));
    }
}

/// A larger margin takes no direction away.
pub proof fn lemma_larger_margin_keeps_moves(b: BoardModel, p: Point, n: nat, m: nat, k: int)
    requires
        n <= m,
    ensures
        forall|d: Direction| #[trigger]
            allowed_moves(b, p, n, k).contains(d) ==> allowed_moves(b, p, m, k).contains(d),
    decreases k,
{
    if k > 0 {
        lemma_larger_margin_keeps_moves(b, p, n, m, k - 1);
        let dir = all_directions()[k - 1];
        let few = allowed_moves(b, p, n, k - 1);
        let more = allowed_moves(b, p, m, k - 1);
        assert forall|d: Direction| #[trigger]
            allowed_moves(b, p, n, k).contains(d) implies allowed_moves(b, p, m, k).contains(d) by {
            if move_allowed(b, p.step(dir), n) {
                lemma_larger_margin(b, p.step(dir), n, m);
                if d == dir {
                    assert(more.push(dir)[more.len() as int] == d);
                } else {
                    let j = choose|j: int| 0 <= j < few.push(dir).len() && few.push(dir)[j] == d;
                    assert(few[j] == d);
                    assert(few.contains(d));
                    let i = choose|i: int| 0 <= i < more.len() && more[i] == d;
                    assert(more.push(dir)[i] == d);
                }
            } else {
                assert(few.contains(d));
                let i = choose|i: int| 0 <= i < more.len() && more[i] == d;
                if move_allowed(b, p.step(dir), m) {
                    assert(more.push(dir)[i] == d);
                }
            }
        }
    }
}

/// The moves that snake `i` is given to choose from: those that its head is
/// allowed with a margin of one tick, or its default move where there is
/// none.
pub open spec fn legal_moves(b: BoardModel, i: int) -> Seq<Direction> {
    let m = allowed_moves(b, b.snakes[i].head(), 1, 4);
    if m.len() == 0 {
        seq![b.snakes[i].default_move_or_up()]
    } else {
        m
    }
}

/// The snake after one tick in direction `dir`: moved at the price of one
/// health, fed if its head came upon food, hurt if it came upon a hazard.
pub open spec fn moved_snake(
    s: SnakeModel,
    dir: Direction,
    food: Seq<Point>,
    hazards: Seq<Point>,
) -> SnakeModel {
    let a = s.advanced(dir, 1);
    let b = if food.contains(a.head()) {
        a.fed()
    } else {
        a
    };
    if hazards.contains(b.head()) {
        b.reduced(HAZARD_DAMAGE)
    } else {
        b
    }
}

/// The move of snake `i`: the one given for it, or its default move.
pub open spec fn chosen_move(s: SnakeModel, moves: Seq<Direction>, i: int) -> Direction {
    if 0 <= i < moves.len() {
        moves[i]
    } else {
        s.default_move_or_up()
    }
}

/// All snakes after their moves, none removed yet.
pub open spec fn moved_snakes(
    b: BoardModel,
    moves: Seq<Direction>,
    hazards: Seq<Point>,
) -> Seq<SnakeModel> {
    Seq::new(
        b.snakes.len(),
        |i: int| moved_snake(b.snakes[i], chosen_move(b.snakes[i], moves, i), b.food, hazards),
    )
}

/// The food item that a head on `p` eats: the first that lies there.
pub open spec fn food_under(food: Seq<Point>, p: Point) -> Option<int> {
    food.index_of_first(p)
}

/// The indices of the food items that some head lies on.
pub open spec fn eaten(food: Seq<Point>, snakes: Seq<SnakeModel>) -> Set<int> {
    Set::new(
        |k: int|
            exists|i: int|
                0 <= i < snakes.len() && food_under(food, (#[trigger] snakes[i]).head()) == Some(k),
    )
}

/// What the meeting of snake `i` with snake `j` does to `i`.
pub open spec fn verdict(snakes: Seq<SnakeModel>, i: int, j: int) -> Option<CauseOfDeath> {
    let me = snakes[i];
    let other = snakes[j];
    if i == j {
        if hits_behind_head(me.body, me.head()) {
            Some(CauseOfDeath::SelfCollision)
        } else {
            None
        }
    } else if hits_behind_head(other.body, me.head()) {
        Some(CauseOfDeath::OtherCollision)
    } else if other.head() == me.head() && me.size() <= other.size() {
        Some(CauseOfDeath::HeadToHead)
    } else {
        None
    }
}

/// The first verdict on snake `i` among the snakes from index `j` on.
pub open spec fn first_verdict(snakes: Seq<SnakeModel>, i: int, j: int) -> Option<CauseOfDeath>
    decreases snakes.len() - j,
{
    if j < 0 || j >= snakes.len() {
        None
    } else {
        match verdict(snakes, i, j) {
            Some(c) => Some(c),
            None => first_verdict(snakes, i, j + 1),
        }
    }
}

/// Why snake `i` dies in the state `snakes`, if it does.
pub open spec fn death(snakes: Seq<SnakeModel>, bound: Point, i: int) -> Option<CauseOfDeath> {
    let me = snakes[i];
    if me.health == 0 {
        Some(CauseOfDeath::OutOfHealth)
    } else if !in_bounds(bound, me.head()) {
        Some(CauseOfDeath::OutOfBounds)
    } else {
        first_verdict(snakes, i, 0)
    }
}

/// The indices of the snakes that die in the state `snakes`.
pub open spec fn dead(snakes: Seq<SnakeModel>, bound: Point) -> Set<int> {
    Set::new(|i: int| 0 <= i < snakes.len() && death(snakes, bound, i) is Some)
}

/// The snakes that die in the state `snakes`, each with its cause.
pub open spec fn deaths(snakes: Seq<SnakeModel>, bound: Point) -> Map<usize, CauseOfDeath> {
    Map::new(
        |i: usize| i < snakes.len() && death(snakes, bound, i as int) is Some,
        |i: usize| death(snakes, bound, i as int)->0,
    )
}

/// A snake that is well formed before a tick is so after it, and its head
/// is where the move led.
pub proof fn lemma_moved_snake(s: SnakeModel, dir: Direction, food: Seq<Point>, hazards: Seq<Point>)
    requires
        s.wf(),
    ensures
        moved_snake(s, dir, food, hazards).wf(),
        moved_snake(s, dir, food, hazards).head() == s.head().step(dir),
        moved_snake(s, dir, food, hazards).size() == s.size() + if food.contains(
            s.head().step(dir),
        ) {
            1nat
        } else {
            0nat
        },
{
}

/// The indices of the snakes that are lost whatever the others do: without
/// health, off the board or with the head on the own body.
pub open spec fn lost_alone(snakes: Seq<SnakeModel>, bound: Point) -> Set<int> {
    Set::new(
        |i: int|
            0 <= i < snakes.len() && (snakes[i].health == 0 || !in_bounds(bound, snakes[i].head())
                || hits_behind_head(snakes[i].body, snakes[i].head())),
    )
}

/// No head lies on the body of another snake.
pub open spec fn heads_apart(snakes: Seq<SnakeModel>) -> bool {
    forall|i: int, j: int|
        0 <= i < snakes.len() && 0 <= j < snakes.len() && i != j ==> !(#[trigger] snakes[j]).body.contains(
            (#[trigger] snakes[i]).head(),
        )
}

proof fn lemma_verdicts_apart(snakes: Seq<SnakeModel>, i: int, j: int)
    requires
        heads_apart(snakes),
        0 <= i < snakes.len(),
        0 <= j,
        forall|k: int| 0 <= k < snakes.len() ==> (#[trigger] snakes[k]).body.len() > 0,
    ensures
        first_verdict(snakes, i, j) is Some ==> hits_behind_head(snakes[i].body, snakes[i].head()),
    decreases snakes.len() - j,
{
    if j < snakes.len() {
        if i != j {
            assert(!snakes[j].body.contains(snakes[i].head()));
            assert(snakes[j].body[0] != snakes[i].head());
            assert(verdict(snakes, i, j) is None);
        }
        lemma_verdicts_apart(snakes, i, j + 1);
    }
}

proof fn lemma_count_marked_subset(a: Set<int>, b: Set<int>, upto: int)
    requires
        a.subset_of(b),
    ensures
        count_marked(a, upto) <= count_marked(b, upto),
    decreases upto,
{
    if upto > 0 {
        lemma_count_marked_subset(a, b, upto - 1);
    }
}

/// No snake dies without a reason: where no head lies on another snake's
/// body, a tick takes away no more snakes than are without health, off the
/// board or on their own body once all have moved.
pub proof fn lemma_no_spurious_deaths(snakes: Seq<SnakeModel>, bound: Point)
    requires
        heads_apart(snakes),
        forall|k: int| 0 <= k < snakes.len() ==> (#[trigger] snakes[k]).body.len() > 0,
    ensures
        dead(snakes, bound).subset_of(lost_alone(snakes, bound)),
        snakes.len() - retain_unmarked(snakes, dead(snakes, bound), snakes.len() as int).len()
            <= count_marked(lost_alone(snakes, bound), snakes.len() as int),
{
    assert forall|i: int| dead(snakes, bound).contains(i) implies lost_alone(
        snakes,
        bound,
    ).contains(i) by {
        lemma_verdicts_apart(snakes, i, 0);
    }
    lemma_retain_unmarked(snakes, dead(snakes, bound), snakes.len() as int);
    lemma_count_marked_subset(dead(snakes, bound), lost_alone(snakes, bound), snakes.len() as int);
}

/// Two snakes whose heads lie on different cells do not eat the same food
/// item.
pub proof fn lemma_food_eaten_by_one(food: Seq<Point>, snakes: Seq<SnakeModel>, i: int, j: int)
    requires
        0 <= i < snakes.len(),
        0 <= j < snakes.len(),
        snakes[i].head() != snakes[j].head(),
        food_under(food, snakes[i].head()) is Some,
    ensures
        food_under(food, snakes[i].head()) != food_under(food, snakes[j].head()),
{
    lemma_index_of_first(food, snakes[i].head());
    lemma_index_of_first(food, snakes[j].head());
}

/// Each food item under a head leaves the board once, and nothing else
/// does: the food gets shorter by the number of eaten items, no eaten item
/// is left at its place in the order, and every other item is still there.
pub proof fn lemma_food_removed_once(food: Seq<Point>, snakes: Seq<SnakeModel>)
    ensures
        retain_unmarked(food, eaten(food, snakes), food.len() as int).len() == food.len()
            - count_marked(eaten(food, snakes), food.len() as int),
        forall|k: int|
            0 <= k < food.len() && !eaten(food, snakes).contains(k) ==> retain_unmarked(
                food,
                eaten(food, snakes),
                food.len() as int,
            ).contains(#[trigger] food[k]),
        forall|p: Point|
            (exists|i: int| 0 <= i < snakes.len() && (#[trigger] snakes[i]).head() == p)
                ==> retain_unmarked(food, eaten(food, snakes), food.len() as int).to_multiset().count(
                p,
            ) == if food.contains(p) {
                food.to_multiset().count(p) - 1
            } else {
                0
            },
{
    lemma_retain_unmarked(food, eaten(food, snakes), food.len() as int);
    assert forall|p: Point|
        (exists|i: int| 0 <= i < snakes.len() && (#[trigger] snakes[i]).head() == p) implies retain_unmarked(
        food,
        eaten(food, snakes),
        food.len() as int,
    ).to_multiset().count(p) == if food.contains(p) {
        food.to_multiset().count(p) - 1
    } else {
        0
    } by {
        lemma_count_after_meal(food, snakes, p, food.len() as int);
        assert(food.take(food.len() as int) =~= food);
        lemma_index_of_first(food, p);
        let left = retain_unmarked(food, eaten(food, snakes), food.len() as int);
        if food.contains(p) {
            assert(food_under(food, p) is Some && food_under(food, p)->0 < food.len());
            assert(left.to_multiset().count(p) == food.to_multiset().count(p) - 1);
        } else {
            assert(food_under(food, p) is None);
            assert(left.to_multiset().count(p) == food.to_multiset().count(p));
            assert(food.to_multiset().count(p) == 0) by {
                broadcast use vstd::seq_lib::group_to_multiset_ensures;

            }
        }
    }
}

/// On a cell under a head, the food items among the first `upto` lose the
/// first of them all and keep the others.
proof fn lemma_count_after_meal(food: Seq<Point>, snakes: Seq<SnakeModel>, p: Point, upto: int)
    requires
        exists|i: int| 0 <= i < snakes.len() && (#[trigger] snakes[i]).head() == p,
        0 <= upto <= food.len(),
    ensures
        retain_unmarked(food, eaten(food, snakes), upto).to_multiset().count(p) == food.take(
            upto,
        ).to_multiset().count(p) - if food_under(food, p) is Some && food_under(food, p)->0 < upto {
            1int
        } else {
            0int
        },
    decreases upto,
{
    broadcast use vstd::seq_lib::group_to_multiset_ensures;

    let gone = eaten(food, snakes);
    lemma_index_of_first(food, p);
    if upto == 0 {
        assert(food.take(0) =~= Seq::<Point>::empty());
    } else {
        lemma_count_after_meal(food, snakes, p, upto - 1);
        let k = upto - 1;
        assert(food.take(upto) =~= food.take(k).push(food[k]));
        if gone.contains(k) {
            let i = choose|i: int|
                0 <= i < snakes.len() && food_under(food, (#[trigger] snakes[i]).head()) == Some(k);
            lemma_index_of_first(food, snakes[i].head());
            if food[k] == p {
                assert(food_under(food, p) == Some(k));
            }
        } else {
            if food[k] == p {
                let i = choose|i: int| 0 <= i < snakes.len() && (#[trigger] snakes[i]).head() == p;
                assert(food_under(food, snakes[i].head()) != Some(k));
                assert(food_under(food, p) is Some);
            }
        }
    }
}

/// The snakes of a snapshot but the own one, in their order, among the
/// first `n`.
pub open spec fn other_snakes(snakes: Seq<ApiSnake>, you: ApiSnake, n: int) -> Seq<ApiSnake>
    decreases n,
{
    if n <= 0 {
        Seq::empty()
    } else if snakes[n - 1].id@ != you.id@ {
        other_snakes(snakes, you, n - 1).push(snakes[n - 1])
    } else {
        other_snakes(snakes, you, n - 1)
    }
}

impl GameInfo {
    /// The snakes that the board is made of: the own one first, then the
    /// others in the order of the snapshot.
    pub open spec fn contenders(self) -> Seq<ApiSnake> {
        seq![self.you] + other_snakes(self.board.snakes@, self.you, self.board.snakes@.len() as int)
    }

    /// Whether the simulation can take every snake of the snapshot.
    pub open spec fn usable(self) -> bool {
        forall|i: int| 0 <= i < self.contenders().len() ==> (#[trigger] self.contenders()[i]).usable()
    }

    /// The board that the snapshot describes.
    pub open spec fn board_model(self) -> BoardModel {
        BoardModel {
            snakes: self.contenders().map_values(|s: ApiSnake| s.model()),
            food: self.board.food@,
            bound: Point {
                x: (size_of(self.board.width) - 1) as i32,
                y: (size_of(self.board.height) - 1) as i32,
            },
        }
    }
}

impl BoardModel {
    /// Every snake has a body, at most full health and a head that can take
    /// a step; the board ends before the greatest coordinate.
    pub open spec fn wf(self) -> bool {
        &&& forall|i: int|
            0 <= i < self.snakes.len() ==> (#[trigger] self.snakes[i]).wf()
                && self.snakes[i].head().can_step()
        &&& self.bound.x < i32::MAX
        &&& self.bound.y < i32::MAX
        &&& SEARCH_ROOM * (crate::route::cell_count(self.bound) + 1) <= usize::MAX
    }
}

/// The board of one branch of the search.
#[derive(Debug)]
pub struct Board {
    pub snakes: Vec<Snake>,
    pub food: Vec<Point>,
    pub bound: Point,
}

impl View for Board {
    type V = BoardModel;

    open spec fn view(&self) -> BoardModel {
        BoardModel {
            snakes: self.snakes@.map_values(|s: Snake| s@),
            food: self.food@,
            bound: self.bound,
        }
    }
}

impl Clone for Board {
    fn clone(&self) -> (b: Board)
        ensures
            b@ == self@,
    {
        let mut snakes: Vec<Snake> = Vec::new();
        let mut i: usize = 0;
        while i < self.snakes.len()
            invariant
                i <= self.snakes.len(),
                snakes.len() == i,
                forall|j: int| 0 <= j < i ==> (#[trigger] snakes[j])@ == self.snakes[j]@,
            decreases self.snakes.len() - i,
        {
            snakes.push(self.snakes[i].clone());
            i += 1;
        }
        let food = self.food.clone();
        assert(food@ =~= self.food@);
        let b = Board { snakes, food, bound: self.bound };
        assert(b@.snakes =~= self@.snakes);
        b
    }
}

/// The list of the other snakes among the first `n` starts with the list
/// among the first `m`.
proof fn lemma_others_grow(snakes: Seq<ApiSnake>, you: ApiSnake, m: int, n: int)
    requires
        0 <= m <= n,
    ensures
        other_snakes(snakes, you, m).len() <= other_snakes(snakes, you, n).len(),
        forall|k: int|
            0 <= k < other_snakes(snakes, you, m).len() ==> other_snakes(snakes, you, m)[k]
                == #[trigger] other_snakes(snakes, you, n)[k],
    decreases n - m,
{
    if m < n {
        lemma_others_grow(snakes, you, m, n - 1);
    }
}

/// Whether the body in `v` lies on `p` behind its head.
fn lies_behind_head(v: &Vec<Point>, p: &Point) -> (b: bool)
    ensures
        b == hits_behind_head(v@, *p),
{
    let mut k: usize = 1;
    while k < v.len()
        invariant
            1 <= k,
            forall|j: int| 1 <= j < k && j < v.len() ==> v@[j] != *p,
        decreases v.len() - k,
    {
        if v[k] == *p {
            return true;
        }
        k += 1;
    }
    false
}

impl Board {
    pub open spec fn wf(&self) -> bool {
        self@.wf()
    }

    /// The board of a snapshot: the own snake first, then the others in the
    /// order of the snapshot. Fails with `FailedSnakeConversion` when one of
    /// them is not usable, and with `FailedConversion` when the board is
    /// too large for this machine.
    pub fn from_api(input: &GameInfo) -> (r: Result<Board, Error>)
        ensures
            r is Ok <==> input.usable() && input.board_model().wf(),
            r is Ok ==> r->Ok_0@ == input.board_model() && r->Ok_0.wf(),
            !input.usable() ==> r == Err::<Board, Error>(
                Error::Engine(ErrorKind::FailedSnakeConversion),
            ),
            input.usable() && r is Err ==> r == Err::<Board, Error>(
                Error::Engine(ErrorKind::FailedConversion),
            ),
    {
        let ghost all = input.contenders();
        let mut snakes: Vec<Snake> = Vec::new();
        match Snake::try_from(&input.you) {
            Ok(s) => snakes.push(s),
            Err(e) => {
                assert(all[0] == input.you);
                return Err(Error::Engine(ErrorKind::FailedSnakeConversion));
            },
        }
        let ghost api = input.board.snakes@;
        let mut i: usize = 0;
        while i < input.board.snakes.len()
            invariant
                i <= input.board.snakes.len(),
                api == input.board.snakes@,
                all == input.contenders(),
                snakes@.len() == 1 + other_snakes(api, input.you, i as int).len(),
                forall|k: int|
                    0 <= k < snakes@.len() ==> (#[trigger] (seq![input.you] + other_snakes(
                        api,
                        input.you,
                        i as int,
                    ))[k]).usable() && snakes@[k]@ == (seq![input.you] + other_snakes(
                        api,
                        input.you,
                        i as int,
                    ))[k].model(),
            decreases input.board.snakes.len() - i,
        {
            let snake = &input.board.snakes[i];
            let ghost sofar = seq![input.you] + other_snakes(api, input.you, i as int);
            let ghost next = seq![input.you] + other_snakes(api, input.you, i + 1);
            if snake.id != input.you.id {
                assert(next =~= sofar.push(*snake));
                match Snake::try_from(snake) {
                    Ok(s) => {
                        snakes.push(s);
                    },
                    Err(e) => {
                        proof {
                            lemma_others_grow(api, input.you, i + 1, api.len() as int);
                            let k = next.len() - 1;
                            assert(next[k] == *snake);
                            assert(all[k] == *snake);
                        }
                        return Err(Error::Engine(ErrorKind::FailedSnakeConversion));
                    },
                }
                assert forall|k: int| 0 <= k < snakes@.len() implies (#[trigger] next[k]).usable()
                    && snakes@[k]@ == next[k].model() by {
                    if k < sofar.len() {
                        assert(next[k] == sofar[k]);
                    }
                }
            } else {
                assert(next =~= sofar);
            }
            i += 1;
        }
        let food = input.get_food();
        let bx: i32 = if input.board.width <= 0 {
            -1
        } else {
            input.board.width - 1
        };
        let by: i32 = if input.board.height <= 0 {
            -1
        } else {
            input.board.height - 1
        };
        let board = Board { snakes, food, bound: Point::new(bx, by) };
        assert(board@.snakes =~= input.board_model().snakes);
        assert(board@ == input.board_model());
        assert forall|k: int| 0 <= k < board@.snakes.len() implies (#[trigger] board@.snakes[k]).wf()
            && board@.snakes[k].head().can_step() by {
            assert(all[k].usable());
        }
        let cells: u128 = if bx < 0 || by < 0 {
            0
        } else {
            let (w, h) = ((bx + 1) as u128, (by + 1) as u128);
            assert(w * h <= 0x8000_0000 * 0x8000_0000) by (nonlinear_arith)
                requires
                    0 <= w <= 0x8000_0000,
                    0 <= h <= 0x8000_0000,
            ;
            w * h
        };
        if 16 * (cells + 1) > usize::MAX as u128 {
            return Err(Error::Engine(ErrorKind::FailedConversion));
        }
        Ok(board)
    }

    /// The index of the first food item that lies on `pos`.
    pub fn check_food(&self, pos: &Point) -> (r: Option<usize>)
        ensures
            match r {
                Some(i) => food_under(self@.food, *pos) == Some(i as int) && i < self@.food.len(),
                None => food_under(self@.food, *pos) is None,
            },
    {
        position(&self.food, pos)
    }

    /// Whether `pos` lies on the board.
    pub fn is_inbounds(&self, pos: &Point) -> (b: bool)
        ensures
            b == in_bounds(self@.bound, *pos),
    {
        pos.is_not_negative() && (pos.x <= self.bound.x && pos.y <= self.bound.y)
    }

    /// Whether snake `i` keeps a head from entering `p` within `n` ticks.
    fn snake_blocks(&self, i: usize, p: &Point, n: usize) -> (b: bool)
        requires
            self.wf(),
            i < self.snakes.len(),
        ensures
            b == blocks(self@.snakes[i as int], *p, n as nat),
    {
        let snake = &self.snakes[i];
        assert(self@.snakes[i as int].wf());
        let head = snake.body.nodes[0];
        let size = snake.size();
        if p.manhattan_wide(&head) > size as u64 {
            false
        } else {
            match snake.is_collision(p) {
                Some(k) => n < size && k < size - n,
                None => false,
            }
        }
    }

    /// Whether a head may enter `p`, with a margin of `n` ticks.
    pub(crate) fn is_allowed(&self, p: &Point, n: usize) -> (b: bool)
        requires
            self.wf(),
        ensures
            b == move_allowed(self@, *p, n as nat),
    {
        if !self.is_inbounds(p) {
            return false;
        }
        let mut i: usize = 0;
        while i < self.snakes.len()
            invariant
                i <= self.snakes.len(),
                self.wf(),
                in_bounds(self@.bound, *p),
                forall|j: int| 0 <= j < i ==> !blocks(#[trigger] self@.snakes[j], *p, n as nat),
            decreases self.snakes.len() - i,
        {
            if self.snake_blocks(i, p, n) {
                return false;
            }
            i += 1;
        }
        true
    }

    /// The directions that lead from `p` to a cell on the board that no
    /// snake will still cover: a cell under a body counts as free when the
    /// segment on it is among the last `n` of that body.
    pub fn get_pruned_moves(&self, p: &Point, n: usize) -> (moves: Vec<Direction>)
        requires
            self.wf(),
            p.can_step(),
        ensures
            moves@ == allowed_moves(self@, *p, n as nat, 4),
    {
        let all = Direction::iterator();
        let mut moves: Vec<Direction> = Vec::new();
        let mut k: usize = 0;
        while k < 4
            invariant
                k <= 4,
                self.wf(),
                p.can_step(),
                all@ == all_directions(),
                moves@ == allowed_moves(self@, *p, n as nat, k as int),
            decreases 4 - k,
        {
            let dir = all[k];
            let new = *p + dir;
            if self.is_allowed(&new, n) {
                moves.push(dir);
            }
            k += 1;
        }
        moves
    }

    /// For each snake the moves it is given to choose from; never none.
    pub fn get_all_moves(&self) -> (all: Vec<Vec<Direction>>)
        requires
            self.wf(),
        ensures
            all.len() == self.snakes.len(),
            forall|i: int| 0 <= i < all.len() ==> (#[trigger] all[i])@ == legal_moves(self@, i),
            forall|i: int| 0 <= i < all.len() ==> (#[trigger] all[i]).len() > 0,
    {
        let mut all: Vec<Vec<Direction>> = Vec::new();
        let mut i: usize = 0;
        while i < self.snakes.len()
            invariant
                i <= self.snakes.len(),
                self.wf(),
                all.len() == i,
                forall|j: int| 0 <= j < i ==> (#[trigger] all[j])@ == legal_moves(self@, j),
                forall|j: int| 0 <= j < i ==> (#[trigger] all[j]).len() > 0,
            decreases self.snakes.len() - i,
        {
            let snake = &self.snakes[i];
            assert(self@.snakes[i as int].wf());
            let head = snake.body.nodes[0];
            let mut new = self.get_pruned_moves(&head, 1);
            if new.len() == 0 {
                let dir = match snake.get_default_move() {
                    Ok(d) => d,
                    Err(_) => Direction::Up,
                };
                new.push(dir);
                assert(new@ =~= seq![self@.snakes[i as int].default_move_or_up()]);
            }
            all.push(new);
            i += 1;
        }
        all
    }

    /// Why snake `i` dies in the present state, if it does.
    fn death_of(&self, i: usize) -> (r: Option<CauseOfDeath>)
        requires
            i < self.snakes.len(),
            forall|j: int| 0 <= j < self@.snakes.len() ==> (#[trigger] self@.snakes[j]).body.len() > 0,
        ensures
            r == death(self@.snakes, self@.bound, i as int),
    {
        let snake = &self.snakes[i];
        assert(self@.snakes[i as int].body.len() > 0);
        let head = snake.body.nodes[0];
        if !snake.has_health() {
            return Some(CauseOfDeath::OutOfHealth);
        }
        if !self.is_inbounds(&head) {
            return Some(CauseOfDeath::OutOfBounds);
        }
        let mut j: usize = 0;
        while j < self.snakes.len()
            invariant
                j <= self.snakes.len(),
                i < self.snakes.len(),
                snake == &self.snakes[i as int],
                head == self@.snakes[i as int].head(),
                self@.snakes[i as int].health != 0,
                in_bounds(self@.bound, head),
                forall|j: int|
                    0 <= j < self@.snakes.len() ==> (#[trigger] self@.snakes[j]).body.len() > 0,
                first_verdict(self@.snakes, i as int, 0) == first_verdict(
                    self@.snakes,
                    i as int,
                    j as int,
                ),
            decreases self.snakes.len() - j,
        {
            let other = &self.snakes[j];
            assert(self@.snakes[j as int].body.len() > 0);
            let hit = lies_behind_head(&other.body.nodes, &head);
            if j != i {
                if hit {
                    return Some(CauseOfDeath::OtherCollision);
                } else if other.body.nodes[0] == head && snake.size() <= other.size() {
                    return Some(CauseOfDeath::HeadToHead);
                }
            } else if hit {
                return Some(CauseOfDeath::SelfCollision);
            }
            j += 1;
        }
        None
    }

    /// Moves every snake one step, feeds and hurts the snakes, and then takes
    /// the dead snakes and the eaten food off the board. Snake `i` takes
    /// `moves[i]`, or its default move where `moves` is too short. The result
    /// holds each dead snake's index before the tick and the cause of its
    /// death; the deaths are judged on the state in which all have moved and
    /// none has been removed.
    pub fn advance_snakes(&mut self, moves: &[Direction], hazards: &Vec<Point>) -> (dead_snakes:
        HashMap<usize, CauseOfDeath>)
        requires
            old(self).wf(),
        ensures
            dead_snakes@ == deaths(
                moved_snakes(old(self)@, moves@, hazards@),
                old(self)@.bound,
            ),
            final(self)@.snakes == retain_unmarked(
                moved_snakes(old(self)@, moves@, hazards@),
                dead(moved_snakes(old(self)@, moves@, hazards@), old(self)@.bound),
                old(self)@.snakes.len() as int,
            ),
            final(self)@.food == retain_unmarked(
                old(self)@.food,
                eaten(old(self)@.food, moved_snakes(old(self)@, moves@, hazards@)),
                old(self)@.food.len() as int,
            ),
            final(self)@.bound == old(self)@.bound,
            final(self).wf(),
    {
        let ghost before = self@;
        let ghost moved = moved_snakes(before, moves@, hazards@);
        let n = self.snakes.len();
        let mut eaten_food: Vec<bool> = vec![false; self.food.len()];
        let mut i: usize = 0;
        while i < n
            invariant
                i <= n,
                n == self.snakes.len(),
                before.wf(),
                before.snakes.len() == n,
                moved == moved_snakes(before, moves@, hazards@),
                self@.food == before.food,
                self@.bound == before.bound,
                forall|j: int| 0 <= j < i ==> #[trigger] self@.snakes[j] == moved[j],
                forall|j: int| i <= j < n ==> #[trigger] self@.snakes[j] == before.snakes[j],
                eaten_food.len() == before.food.len(),
                forall|k: int|
                    0 <= k < eaten_food.len() ==> (#[trigger] eaten_food[k] <==> exists|j: int|
                        0 <= j < i && food_under(before.food, (#[trigger] moved[j]).head()) == Some(
                            k,
                        )),
            decreases n - i,
        {
            let ghost start = before.snakes[i as int];
            assert(self@.snakes[i as int] == start);
            assert(start.wf() && start.head().can_step());
            let dir: Direction = if i < moves.len() {
                moves[i]
            } else {
                match self.snakes[i].get_default_move() {
                    Ok(d) => d,
                    Err(_) => Direction::Up,
                }
            };
            assert(dir == chosen_move(start, moves@, i as int));
            proof {
                lemma_moved_snake(start, dir, before.food, hazards@);
            }
            let mut snake = self.snakes[i].clone();
            let _ = snake.advance(&dir, None);
            let head = snake.body.nodes[0];
            let ghost marks = eaten_food@;
            match position(&self.food, &head) {
                Some(k) => {
                    snake.feed();
                    eaten_food[k] = true;
                },
                None => {},
            }
            if holds(hazards, &head) {
                let _ = snake.reduce_health(HAZARD_DAMAGE);
            }
            assert(snake@.body =~= moved[i as int].body);
            assert(snake@ == moved[i as int]);
            let ghost prev = self@.snakes;
            self.snakes[i] = snake;
            assert(self@.snakes =~= prev.update(i as int, moved[i as int]));
            assert forall|k: int| 0 <= k < eaten_food.len() implies (
            #[trigger] eaten_food[k] <==> exists|j: int|
                0 <= j < i + 1 && food_under(before.food, (#[trigger] moved[j]).head()) == Some(
                    k,
                )) by {
                if food_under(before.food, moved[i as int].head()) == Some(k) {
                    assert(eaten_food[k]);
                } else if marks[k] {
                    let j = choose|j: int|
                        0 <= j < i && food_under(before.food, (#[trigger] moved[j]).head()) == Some(
                            k,
                        );
                    assert(0 <= j < i + 1);
                } else {
                    assert(!eaten_food[k]);
                    if exists|j: int|
                        0 <= j < i + 1 && food_under(before.food, (#[trigger] moved[j]).head())
                            == Some(k) {
                        let j = choose|j: int|
                            0 <= j < i + 1 && food_under(
                                before.food,
                                (#[trigger] moved[j]).head(),
                            ) == Some(k);
                        assert(j < i);
                    }
                }
            }
            i += 1;
        }
        assert(self@.snakes =~= moved);
        assert forall|j: int| 0 <= j < n implies (#[trigger] moved[j]).wf() by {
            lemma_moved_snake(
                before.snakes[j],
                chosen_move(before.snakes[j], moves@, j),
                before.food,
                hazards@,
            );
        }

        let ghost fallen = dead(moved, before.bound);
        let mut dead_snakes: HashMap<usize, CauseOfDeath> = HashMap::new();
        let mut snakes: Vec<Snake> = Vec::new();
        let mut i: usize = 0;
        while i < n
            invariant
                i <= n,
                n == self.snakes.len(),
                n == moved.len(),
                self@.snakes == moved,
                self@.bound == before.bound,
                fallen == dead(moved, before.bound),
                forall|j: int| 0 <= j < n ==> (#[trigger] moved[j]).wf(),
                dead_snakes@ == Map::<usize, CauseOfDeath>::new(
                    |k: usize| k < i && death(moved, before.bound, k as int) is Some,
                    |k: usize| death(moved, before.bound, k as int)->0,
                ),
                snakes@.map_values(|s: Snake| s@) == retain_unmarked(moved, fallen, i as int),
            decreases n - i,
        {
            assert forall|j: int| 0 <= j < self@.snakes.len() implies (
            #[trigger] self@.snakes[j]).body.len() > 0 by {
                assert(moved[j].wf());
            }
            match self.death_of(i) {
                Some(cause) => {
                    dead_snakes.insert(i, cause);
                    assert(fallen.contains(i as int));
                },
                None => {
                    snakes.push(self.snakes[i].clone());
                    assert(!fallen.contains(i as int));
                    assert(snakes@.map_values(|s: Snake| s@) =~= retain_unmarked(
                        moved,
                        fallen,
                        i as int,
                    ).push(moved[i as int]));
                },
            }
            assert(dead_snakes@ =~= Map::<usize, CauseOfDeath>::new(
                |k: usize| k < i + 1 && death(moved, before.bound, k as int) is Some,
                |k: usize| death(moved, before.bound, k as int)->0,
            ));
            i += 1;
        }
        assert(dead_snakes@ =~= deaths(moved, before.bound));

        let ghost gone = eaten(before.food, moved);
        let mut food: Vec<Point> = Vec::new();
        let mut k: usize = 0;
        while k < self.food.len()
            invariant
                k <= self.food.len(),
                self@.food == before.food,
                eaten_food.len() == before.food.len(),
                gone == eaten(before.food, moved),
                n == moved.len(),
                forall|k: int|
                    0 <= k < eaten_food.len() ==> (#[trigger] eaten_food[k] <==> exists|j: int|
                        0 <= j < n && food_under(before.food, (#[trigger] moved[j]).head()) == Some(
                            k,
                        )),
                food@ == retain_unmarked(before.food, gone, k as int),
            decreases self.food.len() - k,
        {
            assert(eaten_food[k as int] <==> gone.contains(k as int));
            if !eaten_food[k] {
                food.push(self.food[k]);
            }
            k += 1;
        }
        self.food = food;
        self.snakes = snakes;
        proof {
            lemma_retain_unmarked(moved, fallen, n as int);
            assert forall|j: int| 0 <= j < self@.snakes.len() implies (
            #[trigger] self@.snakes[j]).wf() && self@.snakes[j].head().can_step() by {
                let s = self@.snakes[j];
                let i = choose|i: int| 0 <= i < n && !fallen.contains(i) && moved[i] == s;
                assert(moved[i].wf());
                assert(death(moved, before.bound, i) is None);
            }
        }
        dead_snakes
    }

    /// Why the own snake dies in the present state, if it does. The board
    /// stays as it is.
    pub fn get_my_death(&mut self) -> (r: Option<CauseOfDeath>)
        requires
            old(self)@.snakes.len() > 0,
            forall|j: int|
                0 <= j < old(self)@.snakes.len() ==> (#[trigger] old(self)@.snakes[j]).body.len() > 0,
        ensures
            r == death(old(self)@.snakes, old(self)@.bound, 0),
            *final(self) == *old(self),
    {
        self.death_of(0)
    }
}

} // verus!
