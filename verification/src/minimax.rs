//! The search over the joint moves of all snakes. Each state of the
//! frontier stands for one first move of the own snake and carries the
//! worst score met on the way to it; scores are whole numbers, a million
//! for the neutral score of the root.

use vstd::prelude::*;
use crate::board::{
    dead, death, deaths, eaten, legal_moves, moved_snakes, Board, BoardModel, CauseOfDeath,
};
use crate::direction::{all_directions, Direction};
use crate::point::Point;
use crate::queue::{is_best, Frontier, Ranked};
use crate::seqs::retain_unmarked;

verus! {

/// The score of the root: neutral.
pub const NEUTRAL_SCORE: i64 = 1_000_000;

/// `prev` with `item` at the end of each of its first `n` tuples.
pub open spec fn each_with<T>(prev: Seq<Seq<T>>, item: T, n: int) -> Seq<Seq<T>>
    decreases n,
{
    if n <= 0 {
        Seq::empty()
    } else {
        each_with(prev, item, n - 1).push(prev[n - 1].push(item))
    }
}

/// The tuples of `prev`, each with one of the first `m` items of `list` at
/// its end: item by item, and for each item tuple by tuple.
pub open spec fn extended_by<T>(prev: Seq<Seq<T>>, list: Seq<T>, m: int) -> Seq<Seq<T>>
    decreases m,
{
    if m <= 0 {
        Seq::empty()
    } else {
        extended_by(prev, list, m - 1) + each_with(prev, list[m - 1], prev.len() as int)
    }
}

/// The cartesian product of the first `n` lists: all ways to take one item
/// of each. The empty product holds the empty tuple.
pub open spec fn product<T>(lists: Seq<Vec<T>>, n: int) -> Seq<Seq<T>>
    decreases n,
{
    if n <= 0 {
        seq![Seq::empty()]
    } else {
        extended_by(product(lists, n - 1), lists[n - 1]@, lists[n - 1]@.len() as int)
    }
}

/// What a list of tuples holds.
pub open spec fn tuples<T>(v: Seq<Vec<T>>) -> Seq<Seq<T>> {
    v.map_values(|t: Vec<T>| t@)
}

/// The number of tuples in the product is the product of the lengths,
/// and each tuple has one item of each list.
pub proof fn lemma_product_shape<T>(lists: Seq<Vec<T>>, n: int)
    requires
        0 <= n <= lists.len(),
    ensures
        forall|i: int| 0 <= i < product(lists, n).len() ==> (#[trigger] product(lists, n)[i]).len() == n,
        n > 0 ==> product(lists, n).len() == product(lists, n - 1).len() * lists[n - 1]@.len(),
        product(lists, 0).len() == 1,
    decreases n,
{
    if n > 0 {
        lemma_product_shape(lists, n - 1);
        let prev = product(lists, n - 1);
        lemma_extended_shape(prev, lists[n - 1]@, lists[n - 1]@.len() as int, n - 1);
    }
}

proof fn lemma_each_with_shape<T>(prev: Seq<Seq<T>>, item: T, n: int, width: int)
    requires
        0 <= n <= prev.len(),
        forall|i: int| 0 <= i < prev.len() ==> (#[trigger] prev[i]).len() == width,
    ensures
        each_with(prev, item, n).len() == n,
        forall|i: int| 0 <= i < n ==> (#[trigger] each_with(prev, item, n)[i]).len() == width + 1,
    decreases n,
{
    if n > 0 {
        lemma_each_with_shape(prev, item, n - 1, width);
    }
}

proof fn lemma_extended_shape<T>(prev: Seq<Seq<T>>, list: Seq<T>, m: int, width: int)
    requires
        0 <= m <= list.len(),
        forall|i: int| 0 <= i < prev.len() ==> (#[trigger] prev[i]).len() == width,
    ensures
        extended_by(prev, list, m).len() == prev.len() * m,
        forall|i: int|
            0 <= i < extended_by(prev, list, m).len() ==> (#[trigger] extended_by(prev, list, m)[i]).len()
                == width + 1,
    decreases m,
{
    if m > 0 {
        lemma_extended_shape(prev, list, m - 1, width);
        lemma_each_with_shape(prev, list[m - 1], prev.len() as int, width);
        assert(prev.len() * m == prev.len() * (m - 1) + prev.len()) by (nonlinear_arith);
    } else {
        assert(prev.len() * m == 0) by (nonlinear_arith)
            requires
                m == 0,
        ;
    }
}

/// `tuple` with `item` at its end.
fn with_item<T: Copy>(tuple: &Vec<T>, item: T) -> (r: Vec<T>)
    ensures
        r@ == tuple@.push(item),
{
    let mut r: Vec<T> = Vec::new();
    let mut i: usize = 0;
    while i < tuple.len()
        invariant
            i <= tuple.len(),
            r@ == tuple@.take(i as int),
        decreases tuple.len() - i,
    {
        r.push(tuple[i]);
        assert(r@ =~= tuple@.take(i + 1));
        i += 1;
    }
    r.push(item);
    assert(tuple@.take(tuple.len() as int) =~= tuple@);
    r
}

/// The cartesian product of `lists`: all ways to take one item of each
/// list. The tuples come item by item of the last list and, for each item,
/// in the order of the product of the lists before it.
pub fn cartesian_product<T: Copy>(lists: &[Vec<T>]) -> (result: Vec<Vec<T>>)
    ensures
        tuples(result@) == product(lists@, lists@.len() as int),
{
    let mut result: Vec<Vec<T>> = Vec::new();
    result.push(Vec::new());
    assert(tuples(result@) =~= product(lists@, 0));
    let mut n: usize = 0;
    while n < lists.len()
        invariant
            n <= lists.len(),
            tuples(result@) == product(lists@, n as int),
        decreases lists.len() - n,
    {
        let list = &lists[n];
        let ghost prev = tuples(result@);
        let mut next: Vec<Vec<T>> = Vec::new();
        let mut m: usize = 0;
        assert(tuples(next@) =~= extended_by(prev, list@, 0));
        while m < list.len()
            invariant
                m <= list.len(),
                list == &lists@[n as int],
                prev == tuples(result@),
                tuples(next@) == extended_by(prev, list@, m as int),
            decreases list.len() - m,
        {
            let item = list[m];
            let ghost before = tuples(next@);
            let mut i: usize = 0;
            assert(tuples(next@) =~= before + each_with(prev, item, 0));
            while i < result.len()
                invariant
                    i <= result.len(),
                    prev == tuples(result@),
                    tuples(next@) == before + each_with(prev, item, i as int),
                decreases result.len() - i,
            {
                let tuple = with_item(&result[i], item);
                let ghost sofar = tuples(next@);
                next.push(tuple);
                assert(tuples(next@) =~= sofar.push(prev[i as int].push(item)));
                assert(tuples(next@) =~= before + each_with(prev, item, i + 1));
                i += 1;
            }
            m += 1;
        }
        result = next;
        n += 1;
    }
    result
}

/// The score of a branch on which the own snake dies: below every score of
/// a branch on which it lives, a collision first, then a lost meeting of
/// heads, and starving last.
pub open spec fn lethal_score(cause: CauseOfDeath) -> i64 {
    match cause {
        CauseOfDeath::OutOfHealth => (-3 * NEUTRAL_SCORE) as i64,
        CauseOfDeath::HeadToHead => (-2 * NEUTRAL_SCORE) as i64,
        _ => (-NEUTRAL_SCORE) as i64,
    }
}

/// The score of a branch on which the own snake dies.
pub fn death_score(cause: CauseOfDeath) -> (h: i64)
    ensures
        h == lethal_score(cause),
        h < 0,
{
    match cause {
        CauseOfDeath::OutOfHealth => -3 * NEUTRAL_SCORE,
        CauseOfDeath::HeadToHead => -2 * NEUTRAL_SCORE,
        _ => -NEUTRAL_SCORE,
    }
}

/// What a state of the frontier is: a board, the first move that led to
/// it (none for the root), the number of ticks since the root, and the
/// worst score met on the way.
pub struct StateModel {
    pub board: BoardModel,
    pub root: Option<Direction>,
    pub depth: nat,
    pub h: i64,
}

/// A state of the frontier.
#[derive(Debug)]
pub struct State {
    pub board: Board,
    pub root: Option<Direction>,
    pub depth: usize,
    pub h: i64,
}

impl View for State {
    type V = StateModel;

    open spec fn view(&self) -> StateModel {
        StateModel { board: self.board@, root: self.root, depth: self.depth as nat, h: self.h }
    }
}

impl Ranked for State {
    /// The state of the greatest score goes first.
    open spec fn rank(&self) -> int {
        self.h as int
    }

    fn outranks(&self, other: &Self) -> (b: bool)
        ensures
            b == (self.rank() > other.rank()),
    {
        self.h > other.h
    }
}

/// `k` is the first index of `s` at which the score is the greatest.
pub open spec fn is_top(s: Seq<StateModel>, k: int) -> bool {
    &&& 0 <= k < s.len()
    &&& forall|j: int| 0 <= j < s.len() ==> (#[trigger] s[j]).h <= s[k].h
    &&& forall|j: int| 0 <= j < k ==> (#[trigger] s[j]).h < s[k].h
}

/// What one joint move led to: the own move, the board after the tick, the
/// cause of the own death if the own snake died, and else the score of
/// the board.
#[derive(Debug)]
pub struct Outcome {
    pub my_move: Direction,
    pub board: Board,
    pub death: Option<CauseOfDeath>,
    pub score: i64,
}

impl Outcome {
    /// The score of the branch: the sentinel of the death, or the worse of
    /// the parent's score and the score of the board.
    pub open spec fn branch_score(self, parent_h: i64) -> i64 {
        match self.death {
            Some(cause) => lethal_score(cause),
            None => if self.score < parent_h {
                self.score
            } else {
                parent_h
            },
        }
    }

    /// The state that goes on from this outcome.
    pub open spec fn state(self, parent: StateModel) -> StateModel {
        StateModel {
            board: self.board@,
            root: Some(
                match parent.root {
                    Some(d) => d,
                    None => self.my_move,
                },
            ),
            depth: parent.depth + 1,
            h: self.branch_score(parent.h),
        }
    }
}

/// The index of the outcome that is kept for the own move `dir` among the
/// first `n` outcomes: the first outcome of the least branch score among
/// those that the own snake lives through, or else the first that it dies
/// in.
pub open spec fn kept(outcomes: Seq<Outcome>, parent_h: i64, dir: Direction, n: int) -> Option<int>
    decreases n,
{
    if n <= 0 {
        None
    } else {
        let before = kept(outcomes, parent_h, dir, n - 1);
        let o = outcomes[n - 1];
        if o.my_move != dir {
            before
        } else {
            match before {
                None => Some(n - 1),
                Some(k) => {
                    let old = outcomes[k];
                    if old.death is Some {
                        if o.death is None {
                            Some(n - 1)
                        } else {
                            before
                        }
                    } else if o.death is None && o.branch_score(parent_h) < old.branch_score(
                        parent_h,
                    ) {
                        Some(n - 1)
                    } else {
                        before
                    }
                },
            }
        }
    }
}

/// Whether the state that goes on from an outcome joins the frontier: a
/// branch on which the own snake lives with a score that is not negative,
/// and a branch on which it dies (which is kept only where it lives on no
/// branch of the same own move).
pub open spec fn joins(o: Outcome, parent_h: i64) -> bool {
    o.death is Some || o.branch_score(parent_h) >= 0
}

/// The states that join the frontier for the first `b` own moves.
pub open spec fn joining(outcomes: Seq<Outcome>, parent: StateModel, b: int) -> Seq<StateModel>
    decreases b,
{
    if b <= 0 {
        Seq::empty()
    } else {
        let before = joining(outcomes, parent, b - 1);
        match kept(outcomes, parent.h, all_directions()[b - 1], outcomes.len() as int) {
            Some(k) => if joins(outcomes[k], parent.h) {
                before.push(outcomes[k].state(parent))
            } else {
                before
            },
            None => before,
        }
    }
}

/// The joint moves of a board: one legal move for each snake, in all
/// ways.
pub open spec fn is_joint(b: BoardModel, joint: Seq<Seq<Direction>>) -> bool {
    exists|all: Seq<Vec<Direction>>|
        all.len() == b.snakes.len() && (forall|i: int|
            0 <= i < all.len() ==> (#[trigger] all[i])@ == legal_moves(b, i)) && joint
            == #[trigger] product(all, all.len() as int)
}

/// What the search does next.
#[derive(Debug)]
pub enum Step {
    /// The search is over; the move to make.
    Done(Direction),
    /// The state that was taken out stands for a lost branch; there is
    /// nothing to expand.
    Skip,
    /// The state to expand, and the joint moves to try on its board.
    Expand(State, Vec<Vec<Direction>>),
}

/// The search of a turn: the frontier and the best decision so far.
pub struct Search {
    queue: Frontier<State>,
    decision: Direction,
    explored: usize,
}

impl Search {
    /// The states that wait.
    pub closed spec fn frontier(&self) -> Seq<StateModel> {
        self.queue@.map_values(|s: State| s@)
    }

    /// The move of the state that was taken out last, or the default move
    /// of the own snake.
    pub closed spec fn decision(&self) -> Direction {
        self.decision
    }

    /// How many joint moves were handed out so far; the count stops at the
    /// greatest number there is.
    pub closed spec fn explored(&self) -> int {
        self.explored as int
    }

    /// Every board of the frontier is well formed.
    pub open spec fn wf(&self) -> bool {
        forall|k: int| 0 <= k < self.frontier().len() ==> (#[trigger] self.frontier()[k]).board.wf()
    }

    /// The search at its start: the root waits, and the decision is the
    /// default move of the own snake.
    pub fn new(board: Board) -> (s: Search)
        requires
            board.wf(),
            board@.snakes.len() > 0,
        ensures
            s.wf(),
            s.frontier() == seq![
                StateModel { board: board@, root: None, depth: 0, h: NEUTRAL_SCORE },
            ],
            s.decision() == board@.snakes[0].default_move_or_up(),
            s.explored() == 0,
    {
        let decision = match board.snakes[0].get_default_move() {
            Ok(d) => d,
            Err(_) => Direction::Up,
        };
        let mut queue: Frontier<State> = Frontier::new();
        queue.push(State { board, root: None, depth: 0, h: NEUTRAL_SCORE });
        let s = Search { queue, decision, explored: 0 };
        assert(s.frontier() =~= seq![
            StateModel { board: board@, root: None, depth: 0, h: NEUTRAL_SCORE },
        ]);
        s
    }

    pub fn get_decision(&self) -> (d: Direction)
        ensures
            d == self.decision(),
    {
        self.decision
    }

    pub fn get_explored(&self) -> (n: usize)
        ensures
            n == self.explored(),
    {
        self.explored
    }

    /// Takes the state of the greatest score out of the frontier, the first
    /// of them where several have it, and makes its first move the
    /// decision. With nothing left, or with the time used up, the search is
    /// over; a state of a negative score is passed over; any other is
    /// handed out with the joint moves of its board.
    pub fn next(&mut self, time_up: bool) -> (step: Step)
        requires
            old(self).wf(),
        ensures
            final(self).wf(),
            old(self).frontier().len() == 0 ==> step == Step::Done(old(self).decision())
                && final(self).frontier() == old(self).frontier() && final(self).decision() == old(self).decision() && final(self).explored() == old(self).explored(),
            old(self).frontier().len() > 0 ==> exists|k: int| #[trigger]
                is_top(old(self).frontier(), k) && {
                    let st = old(self).frontier()[k];
                    &&& final(self).frontier() == old(self).frontier().remove(k)
                    &&& final(self).decision() == match st.root {
                        Some(d) => d,
                        None => old(self).decision(),
                    }
                    &&& match step {
                        Step::Done(d) => time_up && d == final(self).decision() && final(self).explored() == old(self).explored(),
                        Step::Skip => !time_up && (st.h < 0 || st.board.snakes.len() == 0) && final(self).explored() == old(self).explored(),
                        Step::Expand(state, joint) => {
                            &&& !time_up
                            &&& st.h >= 0
                            &&& state@ == st
                            &&& state.board.wf()
                            &&& st.board.snakes.len() > 0
                            &&& is_joint(st.board, tuples(joint@))
                            &&& final(self).explored() == if old(self).explored() + joint.len()
                                <= usize::MAX {
                                old(self).explored() + joint.len()
                            } else {
                                usize::MAX as int
                            }
                        },
                    }
                },
    {
        let ghost before = self.queue@;
        let state = match self.queue.pop() {
            Some(state) => state,
            None => {
                assert(self.frontier() =~= old(self).frontier());
                return Step::Done(self.decision);
            },
        };
        let ghost k = choose|k: int| #[trigger]
            is_best(before, k) && state == before[k] && self.queue@ == before.remove(k);
        proof {
            assert(self.frontier() =~= old(self).frontier().remove(k));
            assert(old(self).frontier()[k] == state@);
            assert(is_top(old(self).frontier(), k)) by {
                assert forall|j: int| 0 <= j < before.len() implies (#[trigger] old(self).frontier()[j]).h <= state.h by {
                    assert(before[j].rank() <= before[k].rank());
                }
                assert forall|j: int| 0 <= j < k implies (#[trigger] old(self).frontier()[j]).h
                    < state.h by {
                    assert(before[j].rank() < before[k].rank());
                }
            }
            assert forall|j: int| 0 <= j < self.frontier().len() implies (#[trigger] self.frontier()[j]).board.wf() by {
                if j < k {
                    assert(self.frontier()[j] == old(self).frontier()[j]);
                } else {
                    assert(self.frontier()[j] == old(self).frontier()[j + 1]);
                }
            }
            assert(old(self).frontier()[k].board.wf());
        }
        if let Some(dir) = state.root {
            self.decision = dir;
        }
        if time_up {
            return Step::Done(self.decision);
        }
        if state.h < 0 || state.board.snakes.len() == 0 {
            return Step::Skip;
        }
        let all = state.board.get_all_moves();
        let lists = all.as_slice();
        let joint = cartesian_product(lists);
        self.explored = if joint.len() <= usize::MAX - self.explored {
            self.explored + joint.len()
        } else {
            usize::MAX
        };
        proof {
            assert(lists@ == all@);
            assert(is_joint(state.board@, tuples(joint@)));
        }
        Step::Expand(state, joint)
    }

    /// The outcome of one joint move on the board of `parent`: the board
    /// after the tick, with the dead snakes and the eaten food taken off,
    /// and whether the own snake died. The score is left at zero for the
    /// caller to fill in.
    pub fn branch(parent: &State, moves: &Vec<Direction>, hazards: &Vec<Point>) -> (o: Outcome)
        requires
            parent.board.wf(),
            moves.len() > 0,
        ensures
            o.board.wf(),
            o.my_move == moves[0],
            o.score == 0,
            o.death == death(moved_snakes(parent.board@, moves@, hazards@), parent.board@.bound, 0)
                || (parent.board@.snakes.len() == 0 && o.death is None),
            o.board@.snakes == retain_unmarked(
                moved_snakes(parent.board@, moves@, hazards@),
                dead(moved_snakes(parent.board@, moves@, hazards@), parent.board@.bound),
                parent.board@.snakes.len() as int,
            ),
            o.board@.food == retain_unmarked(
                parent.board@.food,
                eaten(parent.board@.food, moved_snakes(parent.board@, moves@, hazards@)),
                parent.board@.food.len() as int,
            ),
            o.board@.bound == parent.board@.bound,
    {
        let mut board = parent.board.clone();
        let given = moves.as_slice();
        let dead_snakes = board.advance_snakes(given, hazards);
        let me: usize = 0;
        let death = match dead_snakes.get(&me) {
            Some(cause) => Some(*cause),
            None => None,
        };
        proof {
            let moved = moved_snakes(parent.board@, moves@, hazards@);
            assert(given@ == moves@);
            assert(dead_snakes@ == deaths(moved, parent.board@.bound));
            if parent.board@.snakes.len() > 0 {
                assert(moved.len() > 0);
                if death is Some {
                    assert(dead_snakes@.contains_key(me));
                } else {
                    assert(!dead_snakes@.contains_key(me));
                }
            }
        }
        Outcome { my_move: moves[0], board, death, score: 0 }
    }

    /// Takes in what the joint moves of the state `parent` led to: for each
    /// own move the outcome that is kept joins the frontier, in the order
    /// of the moves.
    pub fn absorb(&mut self, parent: &State, outcomes: &Vec<Outcome>)
        requires
            old(self).wf(),
            parent.depth < usize::MAX,
            forall|k: int| 0 <= k < outcomes.len() ==> (#[trigger] outcomes[k]).board.wf(),
        ensures
            final(self).wf(),
            final(self).frontier() == old(self).frontier() + joining(outcomes@, parent@, 4),
            final(self).decision() == old(self).decision(),
            final(self).explored() == old(self).explored(),
    {
        let mut slots: Vec<Option<usize>> = Vec::new();
        slots.push(None);
        slots.push(None);
        slots.push(None);
        slots.push(None);
        let all = Direction::iterator();
        let mut n: usize = 0;
        while n < outcomes.len()
            invariant
                n <= outcomes.len(),
                slots.len() == 4,
                all@ == all_directions(),
                forall|b: int|
                    0 <= b < 4 ==> match #[trigger] slots[b] {
                        Some(k) => k < n && kept(outcomes@, parent.h, all@[b], n as int) == Some(
                            k as int,
                        ),
                        None => kept(outcomes@, parent.h, all@[b], n as int) is None,
                    },
            decreases outcomes.len() - n,
        {
            let o = &outcomes[n];
            let b = o.my_move.as_index();
            let replace = match slots[b] {
                None => true,
                Some(k) => {
                    let old = &outcomes[k];
                    if old.death.is_some() {
                        o.death.is_none()
                    } else {
                        o.death.is_none() && Search::score_of(o, parent.h) < Search::score_of(
                            old,
                            parent.h,
                        )
                    }
                },
            };
            if replace {
                slots[b] = Some(n);
            }
            proof {
                assert forall|c: int| 0 <= c < 4 implies match #[trigger] slots[c] {
                    Some(k) => k < n + 1 && kept(outcomes@, parent.h, all@[c], n + 1) == Some(
                        k as int,
                    ),
                    None => kept(outcomes@, parent.h, all@[c], n + 1) is None,
                } by {
                    if c != b {
                        assert(all@[c] != o.my_move);
                    } else {
                        assert(all@[c] == o.my_move);
                    }
                }
            }
            n += 1;
        }
        let ghost start = self.frontier();
        let mut b: usize = 0;
        while b < 4
            invariant
                b <= 4,
                slots.len() == 4,
                all@ == all_directions(),
                parent.depth < usize::MAX,
                self.wf(),
                self.decision() == old(self).decision(),
                self.explored() == old(self).explored(),
                start == old(self).frontier(),
                forall|k: int| 0 <= k < outcomes.len() ==> (#[trigger] outcomes[k]).board.wf(),
                forall|b: int|
                    0 <= b < 4 ==> match #[trigger] slots[b] {
                        Some(k) => k < outcomes.len() && kept(
                            outcomes@,
                            parent.h,
                            all@[b],
                            outcomes.len() as int,
                        ) == Some(k as int),
                        None => kept(outcomes@, parent.h, all@[b], outcomes.len() as int) is None,
                    },
                self.frontier() == start + joining(outcomes@, parent@, b as int),
            decreases 4 - b,
        {
            let ghost sofar = self.frontier();
            match slots[b] {
                Some(k) => {
                    let o = &outcomes[k];
                    let h = Search::score_of(o, parent.h);
                    if o.death.is_some() || h >= 0 {
                        let root = match parent.root {
                            Some(d) => d,
                            None => o.my_move,
                        };
                        let state = State {
                            board: o.board.clone(),
                            root: Some(root),
                            depth: parent.depth + 1,
                            h,
                        };
                        assert(state@ == o.state(parent@));
                        self.queue.push(state);
                        assert(self.frontier() =~= sofar.push(o.state(parent@)));
                    }
                },
                None => {},
            }
            assert(self.frontier() =~= start + joining(outcomes@, parent@, b + 1));
            b += 1;
        }
    }

    /// The score of the branch of an outcome.
    fn score_of(o: &Outcome, parent_h: i64) -> (h: i64)
        ensures
            h == o.branch_score(parent_h),
    {
        match o.death {
            Some(cause) => death_score(cause),
            None => if o.score < parent_h {
                o.score
            } else {
                parent_h
            },
        }
    }
}

} // verus!
