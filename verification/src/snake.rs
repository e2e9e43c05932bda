//! A snake: a body and its health.

use vstd::prelude::*;
use crate::direction::Direction;
use crate::input::ApiSnake;
use crate::path::{extended_back, node_at, slid_front, Path};
use crate::point::Point;
use crate::seqs::position;
use crate::status::{Error, ErrorKind};

verus! {

/// The health that feeding restores.
pub const FULL_HEALTH: u8 = 100;

/// What a snake is: its health and its body, head first.
pub struct SnakeModel {
    pub health: u8,
    pub body: Seq<Point>,
}

impl SnakeModel {
    /// A snake has a body and at most full health.
    pub open spec fn wf(self) -> bool {
        self.body.len() > 0 && self.health <= FULL_HEALTH
    }

    pub open spec fn head(self) -> Point {
        self.body[0]
    }

    pub open spec fn size(self) -> nat {
        self.body.len()
    }

    /// The direction from the neck to the head, `Up` for a snake without a
    /// neck, and nothing where head and neck are not one step apart.
    pub open spec fn default_move(self) -> Option<Direction> {
        if self.body.len() >= 2 {
            Direction::of_delta(self.body[0].x - self.body[1].x, self.body[0].y - self.body[1].y)
        } else {
            Some(Direction::Up)
        }
    }

    /// The default move, with `Up` where the neck gives no direction.
    pub open spec fn default_move_or_up(self) -> Direction {
        match self.default_move() {
            Some(d) => d,
            None => Direction::Up,
        }
    }

    /// The health after a loss of `cost`, which stops at zero.
    pub open spec fn health_after(self, cost: u8) -> u8 {
        if cost < self.health {
            (self.health - cost) as u8
        } else {
            0
        }
    }

    pub open spec fn reduced(self, cost: u8) -> SnakeModel {
        SnakeModel { health: self.health_after(cost), body: self.body }
    }

    /// Full health and the tail doubled.
    pub open spec fn fed(self) -> SnakeModel {
        SnakeModel { health: FULL_HEALTH, body: extended_back(self.body, Point { x: 0, y: 0 }) }
    }

    /// One step in direction `dir`, for the price of `cost` health.
    pub open spec fn advanced(self, dir: Direction, cost: u8) -> SnakeModel {
        SnakeModel { health: self.health_after(cost), body: slid_front(self.body, dir) }
    }
}

/// A snake on the board.
#[derive(Debug)]
pub struct Snake {
    pub health: u8,
    pub body: Path,
}

impl View for Snake {
    type V = SnakeModel;

    open spec fn view(&self) -> SnakeModel {
        SnakeModel { health: self.health, body: self.body@ }
    }
}

impl Clone for Snake {
    fn clone(&self) -> (s: Snake)
        ensures
            s@ == self@,
    {
        Snake { health: self.health, body: self.body.clone() }
    }
}

impl Snake {
    pub fn new(health: u8, body: Vec<Point>) -> (s: Snake)
        ensures
            s@ == (SnakeModel { health, body: body@ }),
    {
        Snake { health, body: Path::from_vec(body) }
    }

    /// The direction that leads away from the neck. A snake without a neck
    /// moves up; where head and neck are not one step apart the conversion
    /// fails.
    pub fn get_default_move(&self) -> (r: Result<Direction, Error>)
        ensures
            match self@.default_move() {
                Some(d) => r == Ok::<Direction, Error>(d),
                None => r == Err::<Direction, Error>(Error::Engine(ErrorKind::FailedConversion)),
            },
    {
        let neck = self.neck();
        let head = self.head();
        match (head, neck) {
            (Some(h), Some(n)) => n.direction_to_other(&h),
            _ => Ok(Direction::Up),
        }
    }

    /// The first point of the body.
    pub fn head(&self) -> (p: Option<Point>)
        ensures
            p == node_at(self@.body, 0),
    {
        self.body.first()
    }

    /// The second point of the body.
    pub fn neck(&self) -> (p: Option<Point>)
        ensures
            p == node_at(self@.body, 1),
    {
        self.body.get_node(1)
    }

    /// Slides the snake one step forward and takes `cost` health, 1 where
    /// none is given. Fails with `OutOfHealth` when no health is left.
    pub fn advance(&mut self, dir: &Direction, cost: Option<u8>) -> (r: Result<(), Error>)
        requires
            old(self)@.body.len() > 0 ==> old(self)@.head().can_add(dir.offset()),
        ensures
            final(self)@ == old(self)@.advanced(*dir, cost.unwrap_or(1)),
            r is Ok <==> cost.unwrap_or(1) < old(self).health,
            r is Err ==> r == Err::<(), Error>(Error::Engine(ErrorKind::OutOfHealth)),
    {
        self.body.slide_front(dir);
        let c = match cost {
            Some(c) => c,
            None => 1,
        };
        self.reduce_health(c)
    }

    /// Restores full health and doubles the tail.
    pub fn feed(&mut self)
        ensures
            final(self)@ == old(self)@.fed(),
    {
        self.health = FULL_HEALTH;
        self.body.extend_back(&Point::zero());
        assert(old(self)@.body.len() > 0 ==> old(self)@.body.last().plus(Point { x: 0, y: 0 })
            == old(self)@.body.last());
    }

    /// Takes `cost` health; the health stops at zero, and the call fails with
    /// `OutOfHealth` when it gets there.
    pub fn reduce_health(&mut self, cost: u8) -> (r: Result<(), Error>)
        ensures
            final(self)@ == old(self)@.reduced(cost),
            r is Ok <==> cost < old(self).health,
            r is Err ==> r == Err::<(), Error>(Error::Engine(ErrorKind::OutOfHealth)),
    {
        if cost < self.health {
            self.health -= cost;
            Ok(())
        } else {
            self.health = 0;
            Err(Error::Engine(ErrorKind::OutOfHealth))
        }
    }

    pub fn has_health(&self) -> (b: bool)
        ensures
            b == (self.health != 0),
    {
        self.health != 0
    }

    /// The first index at which the body lies on `p`.
    pub fn is_collision(&self, p: &Point) -> (r: Option<usize>)
        ensures
            match r {
                Some(i) => self@.body.index_of_first(*p) == Some(i as int) && i < self@.size(),
                None => self@.body.index_of_first(*p) is None,
            },
            r is Some <==> self@.body.contains(*p),
    {
        position(&self.body.nodes, p)
    }

    /// The length of the body.
    pub fn size(&self) -> (n: usize)
        ensures
            n == self@.size(),
    {
        self.body.nodes.len()
    }
}

impl ApiSnake {
    /// Whether the simulation can take the snake: it has a body, a health
    /// from 0 to 100 and a head that can take a step.
    pub open spec fn usable(self) -> bool {
        &&& self.body@.len() > 0
        &&& 0 <= self.health <= FULL_HEALTH
        &&& self.body@[0].can_step()
    }

    /// The snake as the simulation sees it.
    pub open spec fn model(self) -> SnakeModel {
        SnakeModel { health: self.health as u8, body: self.body@ }
    }
}

impl TryFrom<&ApiSnake> for Snake {
    type Error = Error;

    /// Fails with `FailedSnakeConversion` on a snake that is not usable.
    fn try_from(input: &ApiSnake) -> (r: Result<Snake, Error>)
        ensures
            r is Ok <==> input.usable(),
            r is Ok ==> r->Ok_0@ == input.model(),
            r is Err ==> r == Err::<Snake, Error>(
                Error::Engine(ErrorKind::FailedSnakeConversion),
            ),
    {
        if input.body.len() == 0 || input.health < 0 || input.health > 100 {
            return Err(Error::Engine(ErrorKind::FailedSnakeConversion));
        }
        let head = input.body[0];
        if head.x == i32::MIN || head.x == i32::MAX || head.y == i32::MIN || head.y == i32::MAX {
            return Err(Error::Engine(ErrorKind::FailedSnakeConversion));
        }
        let body = input.body.clone();
        assert(body@ =~= input.body@);
        Ok(Snake { health: input.health as u8, body: Path::from_vec(body) })
    }
}

/// The snake made of a snapshot holds a copy of the body: what it holds is
/// stated by `try_from` itself.
impl vstd::std_specs::convert::TryFromSpecImpl<&ApiSnake> for Snake {
    open spec fn obeys_try_from_spec() -> bool {
        false
    }

    open spec fn try_from_spec(input: &ApiSnake) -> Result<Snake, Error> {
        if input.usable() {
            Ok(Snake { health: input.health as u8, body: Path { nodes: input.body } })
        } else {
            Err(Error::Engine(ErrorKind::FailedSnakeConversion))
        }
    }
}

} // verus!
