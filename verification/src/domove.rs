//! The move of a turn, chosen on the grid index: to the nearest food that
//! leaves room to escape, or else to a neighbour that does.

use vstd::prelude::*;
use crate::astar::{is_walk, walk_price, Astar};
use crate::dfs::{escapes, Dfs};
use crate::direction::{all_directions, Direction};
use crate::grid::{last_owner, lemma_index_in_range, GameGrid, GridModel, GridObject};
use crate::heuristic::{HeurMethod, Heuristic, MAX_MARKS};
use crate::input::{collision_hazard, size_of, ApiSnake, GameInfo};
use crate::point::Point;

verus! {

/// The answer to a turn.
#[derive(Debug)]
pub struct Move {
    pub movement: Direction,
    pub shout: Option<String>,
}

/// The greatest index below `n` of a snake whose body lies on `p`.
pub open spec fn last_body(snakes: Seq<ApiSnake>, p: Point, n: int) -> Option<int>
    decreases n,
{
    if n <= 0 {
        None
    } else if snakes[n - 1].body@.contains(p) {
        Some(n - 1)
    } else {
        last_body(snakes, p, n - 1)
    }
}

/// What the grid of a snapshot holds at `p`: a body, or a hazard where no
/// body lies, or in any case food, and at last the risk of a collision
/// with a stronger head where no body lies.
pub open spec fn decision_cell(info: GameInfo, p: Point) -> GridObject {
    let s = match last_body(info.board.snakes@, p, info.board.snakes@.len() as int) {
        Some(k) => GridObject::Snake(k as usize),
        None => GridObject::Empty,
    };
    let h = if info.board.hazards@.contains(p) && !(s is Snake) {
        GridObject::Hazard
    } else {
        s
    };
    let f = if info.board.food@.contains(p) {
        GridObject::Food
    } else {
        h
    };
    if collision_hazard(info.board.snakes@, info.you, info.board.snakes@.len() as int).contains(p)
        && !(f is Snake) {
        GridObject::Collisionchance((info.you.health + 1) as i32)
    } else {
        f
    }
}

/// `g` is the grid of the snapshot.
pub open spec fn is_decision_grid(info: GameInfo, g: GridModel) -> bool {
    &&& g.wf()
    &&& g.height == size_of(info.board.height)
    &&& g.width == size_of(info.board.width)
    &&& !g.ignore_hazard
    &&& forall|p: Point| g.in_bounds(p) ==> #[trigger] g.value(p) == decision_cell(info, p)
}

/// Whether the search can work on the snapshot: the head and the heads
/// that threaten it can take a step, and the board and the lists are
/// small enough for the costs to be counted.
pub open spec fn fit(info: GameInfo) -> bool {
    &&& info.you.head.can_step()
    &&& info.you.health < i32::MAX
    &&& 16 * (size_of(info.board.height) * size_of(info.board.width) + 1) <= i32::MAX
    &&& info.board.hazards@.len() <= MAX_MARKS
    &&& 4 * info.board.snakes@.len() <= MAX_MARKS
    &&& forall|i: int|
        0 <= i < info.board.snakes@.len() && (#[trigger] info.board.snakes@[i]).threatens(info.you)
            ==> info.board.snakes@[i].head.can_step()
}

/// Whether a snake that stands on `p` finds `need` cells of room.
pub open spec fn room_at(g: GridModel, p: Point, need: int) -> bool {
    need <= 0 || escapes(g, Seq::empty(), p, need)
}

/// The choice among the neighbours from the `k`-th on, `dir` being the
/// choice so far: the first neighbour that is empty, food or a hazard and
/// leaves room; before that, the last one that risks a collision and leaves
/// room.
pub open spec fn picked(g: GridModel, head: Point, need: int, k: int, dir: Direction) -> Direction
    decreases 4 - k,
{
    if k < 0 || k >= 4 {
        dir
    } else {
        let d = all_directions()[k];
        let v = g.value(head.step(d));
        if !(v is Snake || v is Collisionchance || v is Outofbounds) {
            if room_at(g, head.step(d), need) {
                d
            } else {
                picked(g, head, need, k + 1, dir)
            }
        } else if v is Collisionchance && room_at(g, head.step(d), need) {
            picked(g, head, need, k + 1, d)
        } else {
            picked(g, head, need, k + 1, dir)
        }
    }
}

/// The choice among the neighbours from the `k`-th on when the choice so
/// far, `dir`, leads off the board: the first neighbour on the board that
/// holds no snake, or else the last one on the board.
pub open spec fn rescued(g: GridModel, head: Point, k: int, dir: Direction) -> Direction
    decreases 4 - k,
{
    if k < 0 || k >= 4 {
        dir
    } else {
        let d = all_directions()[k];
        let v = g.value(head.step(d));
        if v is Outofbounds {
            rescued(g, head, k + 1, dir)
        } else if v is Snake {
            rescued(g, head, k + 1, d)
        } else {
            d
        }
    }
}

/// The move when no food is worth going for.
pub open spec fn fallback_move(g: GridModel, head: Point, need: int) -> Direction {
    let d = picked(g, head, need, 0, Direction::Right);
    if g.value(head.step(d)) is Outofbounds {
        rescued(g, head, 0, d)
    } else {
        d
    }
}

/// `c` is the least price of a walk from `s` to `e`.
#[verifier::opaque]
pub open spec fn is_least_price(g: GridModel, s: Point, e: Point, c: int) -> bool {
    &&& exists|walk: Seq<Point>| #[trigger]
        is_walk(g, walk) && walk[0] == s && walk.last() == e && walk_price(
            g,
            walk,
            walk.len() as int,
        ) == c
    &&& forall|walk: Seq<Point>| #[trigger]
        is_walk(g, walk) && walk[0] == s && walk.last() == e ==> c <= walk_price(
            g,
            walk,
            walk.len() as int,
        )
}

/// Whether the food `apple` is worth going for at the price `c`: the head
/// stands on the board, the least price of a way to the food is `c`, which
/// is no more than the health lasts unless the food lies next to the head,
/// and a snake that stands on the food finds room.
pub open spec fn worth_going(
    g: GridModel,
    head: Point,
    apple: Point,
    hp: int,
    need: int,
    c: int,
) -> bool {
    &&& apple != head
    &&& g.in_bounds(head)
    &&& is_least_price(g, head, apple, c)
    &&& (c <= hp || head.manhattan(apple) == 1)
    &&& room_at(g, apple, need)
}

/// Whether `d` is the first step of a way to `apple` at the price `c`.
pub open spec fn leads_to(g: GridModel, head: Point, apple: Point, d: Direction, c: int) -> bool {
    exists|trail: Seq<Point>| #[trigger]
        is_walk(g, trail) && trail.len() >= 2 && trail[0] == head && trail.last() == apple
            && trail[1] == head.step(d) && walk_price(g, trail, trail.len() as int) == c
}

/// Whether `d` is the first step to the food that is worth going for at the
/// least price, the first such food in the list: the food `food[i]` at the
/// price `c`.
#[verifier::opaque]
pub open spec fn goes_for(
    g: GridModel,
    head: Point,
    food: Seq<Point>,
    hp: int,
    need: int,
    upto: int,
    d: Direction,
    i: int,
    c: int,
) -> bool {
    &&& 0 <= i < upto
    &&& worth_going(g, head, food[i], hp, need, c)
    &&& leads_to(g, head, food[i], d, c)
    &&& forall|j: int, b: int|
        0 <= j < i && #[trigger] worth_going(g, head, food[j], hp, need, b) ==> b > c
    &&& forall|j: int, b: int|
        0 <= j < upto && #[trigger] worth_going(g, head, food[j], hp, need, b) ==> b >= c
}

/// Whether none of the first `upto` food items is worth going for.
#[verifier::opaque]
pub open spec fn no_food(
    g: GridModel,
    head: Point,
    food: Seq<Point>,
    hp: int,
    need: int,
    upto: int,
) -> bool {
    forall|j: int, b: int| 0 <= j < upto ==> !#[trigger] worth_going(g, head, food[j], hp, need, b)
}

/// Where no way leads to the food, it is not worth going for.
proof fn lemma_no_way(g: GridModel, head: Point, apple: Point, hp: int, need: int)
    requires
        !crate::astar::reachable(g, head, apple),
    ensures
        forall|b: int| !#[trigger] worth_going(g, head, apple, hp, need, b),
{
    reveal(is_least_price);
    assert forall|b: int| !#[trigger] worth_going(g, head, apple, hp, need, b) by {
        if is_least_price(g, head, apple, b) {
            let walk = choose|walk: Seq<Point>| #[trigger]
                is_walk(g, walk) && walk[0] == head && walk.last() == apple && walk_price(
                    g,
                    walk,
                    walk.len() as int,
                ) == b;
            assert(is_walk(g, walk) && walk[0] == head && walk.last() == apple);
        }
    }
}

/// What a way of the least price says of the food it leads to: its price
/// is the only one at which the food can be worth going for, and its first
/// step is one step from the head.
proof fn lemma_way_found(
    g: GridModel,
    head: Point,
    apple: Point,
    hp: int,
    need: int,
    cost: int,
    steps: Seq<Point>,
)
    requires
        head.can_step(),
        exists|trail: Seq<Point>| #[trigger]
            is_walk(g, trail) && trail.no_duplicates() && trail[0] == head && trail.last() == apple
                && steps == trail.skip(1) && cost == walk_price(g, trail, trail.len() as int),
        forall|walk: Seq<Point>| #[trigger]
            is_walk(g, walk) && walk[0] == head && walk.last() == apple ==> cost <= walk_price(
                g,
                walk,
                walk.len() as int,
            ),
    ensures
        is_least_price(g, head, apple, cost),
        forall|b: int| #[trigger] worth_going(g, head, apple, hp, need, b) ==> b == cost,
        steps.len() == 0 ==> apple == head,
        steps.len() > 0 ==> apple != head && head.manhattan(steps[0]) == 1 && forall|d: Direction|
            steps[0] == #[trigger] head.step(d) ==> leads_to(g, head, apple, d, cost),
{
    reveal(is_least_price);
    let trail = choose|trail: Seq<Point>| #[trigger]
        is_walk(g, trail) && trail.no_duplicates() && trail[0] == head && trail.last() == apple
            && steps == trail.skip(1) && cost == walk_price(g, trail, trail.len() as int);
    assert(is_least_price(g, head, apple, cost));
    assert forall|b: int| #[trigger] worth_going(g, head, apple, hp, need, b) implies b == cost by {
        lemma_least_price_is_unique(g, head, apple, b, cost);
    }
    if steps.len() > 0 {
        assert(trail.len() >= 2);
        assert(trail[1] == steps[0]);
        assert(trail[0].manhattan(trail[1]) == 1);
        assert(trail[0] != trail[trail.len() - 1]);
    } else {
        assert(trail.len() == 1);
    }
}

/// Food that is not worth going for changes nothing.
proof fn lemma_food_passed(
    g: GridModel,
    head: Point,
    food: Seq<Point>,
    hp: int,
    need: int,
    k: int,
    result: Option<Direction>,
    i: int,
    c: int,
)
    requires
        0 <= k < food.len(),
        match result {
            Some(d) => goes_for(g, head, food, hp, need, k, d, i, c),
            None => no_food(g, head, food, hp, need, k),
        },
        forall|b: int| #[trigger] worth_going(g, head, food[k], hp, need, b) ==> result is Some && b >= c,
    ensures
        match result {
            Some(d) => goes_for(g, head, food, hp, need, k + 1, d, i, c),
            None => no_food(g, head, food, hp, need, k + 1),
        },
{
    reveal(goes_for);
    reveal(no_food);
}

/// Food that is worth going for at a lower price than all before it is
/// gone for.
proof fn lemma_food_taken(
    g: GridModel,
    head: Point,
    food: Seq<Point>,
    hp: int,
    need: int,
    k: int,
    result: Option<Direction>,
    i: int,
    best: int,
    d: Direction,
    c: int,
)
    requires
        0 <= k < food.len(),
        match result {
            Some(d0) => goes_for(g, head, food, hp, need, k, d0, i, best) && c < best,
            None => no_food(g, head, food, hp, need, k),
        },
        worth_going(g, head, food[k], hp, need, c),
        leads_to(g, head, food[k], d, c),
    ensures
        goes_for(g, head, food, hp, need, k + 1, d, k, c),
{
    reveal(goes_for);
    reveal(no_food);
    assert forall|j: int, b: int|
        0 <= j < k + 1 && #[trigger] worth_going(g, head, food[j], hp, need, b) implies b >= c by {
        if j == k {
            lemma_least_price_is_unique(g, head, food[k], b, c);
        }
    }
}

/// The least price of a way is one number.
pub proof fn lemma_least_price_is_unique(g: GridModel, s: Point, e: Point, a: int, b: int)
    requires
        is_least_price(g, s, e, a),
        is_least_price(g, s, e, b),
    ensures
        a == b,
{
    reveal(is_least_price);
    let wa = choose|walk: Seq<Point>| #[trigger]
        is_walk(g, walk) && walk[0] == s && walk.last() == e && walk_price(
            g,
            walk,
            walk.len() as int,
        ) == a;
    let wb = choose|walk: Seq<Point>| #[trigger]
        is_walk(g, walk) && walk[0] == s && walk.last() == e && walk_price(
            g,
            walk,
            walk.len() as int,
        ) == b;
    assert(is_walk(g, wa) && is_walk(g, wb));
}

/// The bodies of the snakes say which snake lies on a point last.
pub proof fn lemma_last_body(snakes: Seq<ApiSnake>, bodies: Seq<Vec<Point>>, p: Point, n: int)
    requires
        bodies.len() == snakes.len(),
        forall|i: int| 0 <= i < bodies.len() ==> (#[trigger] bodies[i])@ == snakes[i].body@,
        0 <= n <= snakes.len(),
    ensures
        last_owner(bodies, p, n) == last_body(snakes, p, n),
    decreases n,
{
    if n > 0 {
        lemma_last_body(snakes, bodies, p, n - 1);
    }
}

proof fn lemma_collision_len(snakes: Seq<ApiSnake>, you: ApiSnake, n: int)
    requires
        0 <= n <= snakes.len(),
    ensures
        collision_hazard(snakes, you, n).len() <= 4 * n,
    decreases n,
{
    if n > 0 {
        lemma_collision_len(snakes, you, n - 1);
        lemma_without_len(snakes[n - 1].head.neighbours(), snakes[n - 1].neck(), 4);
    }
}

proof fn lemma_without_len(s: Seq<Point>, p: Option<Point>, k: int)
    requires
        0 <= k,
    ensures
        crate::input::without(s, p, k).len() <= k,
    decreases k,
{
    if k > 0 {
        lemma_without_len(s, p, k - 1);
    }
}

/// Whether the search can work on the snapshot.
pub fn is_fit(info: &GameInfo) -> (b: bool)
    ensures
        b == fit(*info),
{
    let head = info.you.head;
    if head.x == i32::MIN || head.x == i32::MAX || head.y == i32::MIN || head.y == i32::MAX {
        return false;
    }
    if info.you.health == i32::MAX {
        return false;
    }
    let (h, w) = info.get_board_dimensions();
    let (hh, ww) = (h as u128, w as u128);
    assert(hh * ww <= 0x8000_0000 * 0x8000_0000) by (nonlinear_arith)
        requires
            0 <= hh <= 0x8000_0000,
            0 <= ww <= 0x8000_0000,
    ;
    if 16 * (hh * ww + 1) > 0x7fff_ffff {
        return false;
    }
    if info.board.hazards.len() > MAX_MARKS || info.board.snakes.len() > MAX_MARKS / 4 {
        return false;
    }
    let mut i: usize = 0;
    while i < info.board.snakes.len()
        invariant
            i <= info.board.snakes.len(),
            forall|j: int|
                0 <= j < i && (#[trigger] info.board.snakes@[j]).threatens(info.you)
                    ==> info.board.snakes@[j].head.can_step(),
        decreases info.board.snakes.len() - i,
    {
        let s = &info.board.snakes[i];
        if s.length >= info.you.length && s.id != info.you.id {
            let p = s.head;
            if p.x == i32::MIN || p.x == i32::MAX || p.y == i32::MIN || p.y == i32::MAX {
                return false;
            }
        }
        i += 1;
    }
    true
}

/// The grid of the snapshot, and the cells that a stronger head may enter
/// next.
pub fn decision_grid(info: &GameInfo) -> (r: (GameGrid, Vec<Point>))
    requires
        fit(*info),
    ensures
        r.0.wf(),
        is_decision_grid(*info, r.0@),
        r.1@ == collision_hazard(info.board.snakes@, info.you, info.board.snakes@.len() as int),
        r.1.len() <= MAX_MARKS,
{
    let dim = info.get_board_dimensions();
    let mut grid = GameGrid::new(dim);
    let ghost g0 = grid@;
    let bodies = info.get_snake_bodies();
    let ghost bodies_model = bodies@;
    grid.set_snakes(bodies);
    let ghost g1 = grid@;
    grid.set_hazards(info.get_hazards());
    let ghost g2 = grid@;
    let head_collision = info.get_head_collision_hazard();
    let hp = info.get_my_health();
    grid.set_food(&info.board.food);
    let ghost g3 = grid@;
    grid.set_collision_chance(&head_collision, hp + 1);
    proof {
        lemma_collision_len(info.board.snakes@, info.you, info.board.snakes@.len() as int);
        assert forall|p: Point| grid@.in_bounds(p) implies #[trigger] grid@.value(p)
            == decision_cell(*info, p) by {
            lemma_index_in_range(g0, p);
            assert(g0.value(p) == GridObject::Empty);
            lemma_last_body(
                info.board.snakes@,
                bodies_model,
                p,
                info.board.snakes@.len() as int,
            );
            assert(g1.in_bounds(p) && g2.in_bounds(p) && g3.in_bounds(p));
        }
    }
    (grid, head_collision)
}

impl Move {
    /// The move for the snapshot `gameinfo`.
    ///
    /// Among the food that a way leads to, that is no farther than the
    /// health lasts (or lies next to the head) and that leaves as much room
    /// as the snake is long, the move is the first step of a way of the
    /// least price to the food that is reached at the least price, the
    /// first such food of the snapshot. Where there is none, the move goes
    /// to a neighbour that leaves room, and at least to one on the board.
    /// On a snapshot that the search cannot work on, the move is `Up`.
    pub fn new(gameinfo: &GameInfo) -> (m: Move)
        ensures
            m.shout is None,
            !fit(*gameinfo) ==> m.movement == Direction::Up,
            fit(*gameinfo) ==> exists|g: GridModel| #[trigger]
                is_decision_grid(*gameinfo, g) && {
                    let head = gameinfo.you.head;
                    let hp = gameinfo.you.health as int;
                    let need = gameinfo.you.length as int;
                    let food = gameinfo.board.food@;
                    ||| (exists|i: int, c: int| #[trigger]
                        goes_for(g, head, food, hp, need, food.len() as int, m.movement, i, c))
                    ||| (no_food(g, head, food, hp, need, food.len() as int) && m.movement
                        == fallback_move(g, head, need))
                },
    {
        if !is_fit(gameinfo) {
            return Move { movement: Direction::Up, shout: None };
        }
        let (grid, head_collision) = decision_grid(gameinfo);
        let head = gameinfo.get_my_head();
        let my_len = gameinfo.get_my_length();
        let movement = match Move::towards_food(gameinfo, &grid, &head_collision) {
            Some(d) => d,
            None => Move::fallback(&grid, head, my_len),
        };
        Move { movement, shout: None }
    }

    /// Whether a snake that stands on `p` finds `need` cells of room.
    fn has_room(grid: &GameGrid, p: &Point, need: i32) -> (b: bool)
        requires
            grid.wf(),
            16 * (grid@.cells.len() + 1) <= i32::MAX,
            p.can_step(),
        ensures
            b == room_at(grid@, *p, need as int),
    {
        let mut dfs = Dfs::new();
        dfs.get_atleast_len(p, grid, need)
    }

    /// The least price of a way to `apple` and the first step of such a way,
    /// where the food is worth going for.
    fn try_food(
        grid: &GameGrid,
        hazards: &Vec<Point>,
        head_collision: &Vec<Point>,
        head: Point,
        hp: i32,
        my_len: i32,
        apple: Point,
    ) -> (r: Option<(i32, Direction)>)
        requires
            grid.wf(),
            16 * (grid@.cells.len() + 1) <= i32::MAX,
            grid@.in_bounds(head),
            head.can_step(),
            hazards.len() <= MAX_MARKS,
            head_collision.len() <= MAX_MARKS,
        ensures
            match r {
                Some((c, d)) => worth_going(grid@, head, apple, hp as int, my_len as int, c as int)
                    && leads_to(grid@, head, apple, d, c as int),
                None => forall|b: int|
                    !#[trigger] worth_going(grid@, head, apple, hp as int, my_len as int, b),
            },
    {
        let ghost g = grid@;
        let (w, h) = (grid.get_width(), grid.get_height());
        proof {
            let (wi, hi) = (w as int, h as int);
            assert(g.cells.len() == hi * wi);
            assert(wi * hi == hi * wi) by (nonlinear_arith);
            assert(wi <= wi * hi && hi <= wi * hi) by (nonlinear_arith)
                requires
                    wi >= 1,
                    hi >= 1,
            ;
        }
        let mut heur = Heuristic::new(HeurMethod::Battlesnake);
        heur.battlesnake_init(w, h, hazards, head_collision, hp, &apple);
        let mut astar = Astar::new();
        if !astar.solve(head, apple, grid, &heur) {
            proof {
                lemma_no_way(g, head, apple, hp as int, my_len as int);
            }
            return None;
        }
        let c = astar.get_cost();
        let path = astar.get_path();
        proof {
            lemma_way_found(g, head, apple, hp as int, my_len as int, c as int, path@);
        }
        if path.len() == 0 {
            return None;
        }
        proof {
            crate::grid::lemma_on_board_can_step(g, apple);
        }
        let ret = Move::has_room(grid, &apple, my_len);
        if (c <= hp || head.is_neighbour(apple)) && ret {
            match head.get_neighbour_direction(path[0]) {
                Some(d) => {
                    assert(path@[0] == head.step(d));
                    Some((c, d))
                },
                None => None,
            }
        } else {
            None
        }
    }

    /// The first step to the food that is worth going for at the least
    /// price, if there is such food.
    fn towards_food(gameinfo: &GameInfo, grid: &GameGrid, head_collision: &Vec<Point>) -> (r: Option<
        Direction,
    >)
        requires
            grid.wf(),
            16 * (grid@.cells.len() + 1) <= i32::MAX,
            gameinfo.you.head.can_step(),
            gameinfo.board.hazards.len() <= MAX_MARKS,
            head_collision.len() <= MAX_MARKS,
        ensures
            match r {
                Some(d) => exists|i: int, c: int| #[trigger]
                    goes_for(
                        grid@,
                        gameinfo.you.head,
                        gameinfo.board.food@,
                        gameinfo.you.health as int,
                        gameinfo.you.length as int,
                        gameinfo.board.food@.len() as int,
                        d,
                        i,
                        c,
                    ),
                None => no_food(
                    grid@,
                    gameinfo.you.head,
                    gameinfo.board.food@,
                    gameinfo.you.health as int,
                    gameinfo.you.length as int,
                    gameinfo.board.food@.len() as int,
                ),
            },
    {
        let hp = gameinfo.get_my_health();
        let head = gameinfo.get_my_head();
        let my_len = gameinfo.get_my_length();
        let food = &gameinfo.board.food;
        let hazards = gameinfo.get_hazards();
        let ghost g = grid@;
        let mut result: Option<Direction> = None;
        proof {
            reveal(no_food);
        }
        if !grid.is_in_bounds(&head) {
            return None;
        }
        let mut best: i64 = i64::MAX;
        let ghost mut chosen: int = 0;
        let mut k: usize = 0;
        while k < food.len()
            invariant
                k <= food.len(),
                grid.wf(),
                g == grid@,
                16 * (g.cells.len() + 1) <= i32::MAX,
                g.in_bounds(head),
                head.can_step(),
                hazards.len() <= MAX_MARKS,
                head_collision.len() <= MAX_MARKS,
                match result {
                    Some(d) => goes_for(
                        g,
                        head,
                        food@,
                        hp as int,
                        my_len as int,
                        k as int,
                        d,
                        chosen,
                        best as int,
                    ),
                    None => no_food(g, head, food@, hp as int, my_len as int, k as int) && best
                        == i64::MAX,
                },
            decreases food.len() - k,
        {
            let ghost before = result;
            let ghost best0 = best as int;
            match Move::try_food(grid, hazards, head_collision, head, hp, my_len, food[k]) {
                Some((c, d)) => {
                    if (c as i64) < best {
                        proof {
                            lemma_food_taken(
                                g,
                                head,
                                food@,
                                hp as int,
                                my_len as int,
                                k as int,
                                before,
                                chosen,
                                best0,
                                d,
                                c as int,
                            );
                            chosen = k as int;
                        }
                        result = Some(d);
                        best = c as i64;
                    } else {
                        proof {
                            assert forall|b: int| #[trigger]
                                worth_going(
                                    g,
                                    head,
                                    food@[k as int],
                                    hp as int,
                                    my_len as int,
                                    b,
                                ) implies before is Some && b >= best0 by {
                                lemma_least_price_is_unique(g, head, food@[k as int], b, c as int);
                            }
                            lemma_food_passed(
                                g,
                                head,
                                food@,
                                hp as int,
                                my_len as int,
                                k as int,
                                before,
                                chosen,
                                best0,
                            );
                        }
                    }
                },
                None => {
                    proof {
                        lemma_food_passed(
                            g,
                            head,
                            food@,
                            hp as int,
                            my_len as int,
                            k as int,
                            before,
                            chosen,
                            best0,
                        );
                    }
                },
            }
            k += 1;
        }
        result
    }

    /// The move when no food is worth going for.
    fn fallback(grid: &GameGrid, head: Point, my_len: i32) -> (d: Direction)
        requires
            grid.wf(),
            16 * (grid@.cells.len() + 1) <= i32::MAX,
            head.can_step(),
        ensures
            d == fallback_move(grid@, head, my_len as int),
    {
        let ghost g = grid@;
        let all = Direction::iterator();
        let mut dir = Direction::Right;
        let mut k: usize = 0;
        while k < 4
            invariant
                k <= 4,
                grid.wf(),
                g == grid@,
                16 * (g.cells.len() + 1) <= i32::MAX,
                head.can_step(),
                all@ == all_directions(),
                picked(g, head, my_len as int, 0, Direction::Right) == picked(
                    g,
                    head,
                    my_len as int,
                    k as int,
                    dir,
                ),
            decreases 4 - k,
        {
            let d = all[k];
            let point = head + d;
            let val = grid.get_value(&point);
            if val.is_considerable() {
                proof {
                    crate::grid::lemma_on_board_can_step(g, point);
                }
                if Move::has_room(grid, &point, my_len) {
                    dir = d;
                    k = 4;
                } else {
                    k += 1;
                }
            } else if val.is_accessible() {
                proof {
                    crate::grid::lemma_on_board_can_step(g, point);
                }
                if Move::has_room(grid, &point, my_len) {
                    dir = d;
                }
                k += 1;
            } else {
                k += 1;
            }
        }
        if grid.get_value(&(head + dir)) == GridObject::Outofbounds {
            let first = dir;
            let mut k: usize = 0;
            while k < 4
                invariant
                    k <= 4,
                    grid.wf(),
                    g == grid@,
                    head.can_step(),
                    all@ == all_directions(),
                    rescued(g, head, 0, first) == rescued(g, head, k as int, dir),
                decreases 4 - k,
            {
                let d = all[k];
                let v = grid.get_value(&(head + d));
                if v != GridObject::Outofbounds {
                    dir = d;
                    if v.is_accessible() {
                        k = 4;
                    } else {
                        k += 1;
                    }
                } else {
                    k += 1;
                }
            }
        }
        dir
    }
}

} // verus!
