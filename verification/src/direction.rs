//! The four directions of the grid.

use vstd::prelude::*;
use crate::point::Point;
use crate::status::{Error, ErrorKind};

verus! {

/// A move command, which is also a unit step on the grid.
#[derive(Copy, Clone, Debug, PartialEq, Eq, Hash, Structural)]
pub enum Direction {
    Right,
    Left,
    Up,
    Down,
}

/// All directions, in the order in which moves are tried.
pub const ALL_DIRECTIONS: [Direction; 4] = [
    Direction::Right,
    Direction::Left,
    Direction::Up,
    Direction::Down,
];

/// All directions as a sequence, in the order in which moves are tried.
pub open spec fn all_directions() -> Seq<Direction> {
    seq![Direction::Right, Direction::Left, Direction::Up, Direction::Down]
}

impl Direction {
    /// The unit step that this direction stands for.
    pub open spec fn offset(self) -> Point {
        match self {
            Direction::Right => Point { x: 1i32, y: 0i32 },
            Direction::Left => Point { x: -1i32, y: 0i32 },
            Direction::Up => Point { x: 0i32, y: 1i32 },
            Direction::Down => Point { x: 0i32, y: -1i32 },
        }
    }

    /// The direction that leads `dx` to the right and `dy` up, if one does.
    pub open spec fn of_delta(dx: int, dy: int) -> Option<Direction> {
        if dx == 1 && dy == 0 {
            Some(Direction::Right)
        } else if dx == -1 && dy == 0 {
            Some(Direction::Left)
        } else if dx == 0 && dy == 1 {
            Some(Direction::Up)
        } else if dx == 0 && dy == -1 {
            Some(Direction::Down)
        } else {
            None
        }
    }

    /// The direction whose unit step is `p`, if there is one.
    pub open spec fn of_offset(p: Point) -> Option<Direction> {
        Direction::of_delta(p.x as int, p.y as int)
    }

    /// Position of the direction in [`ALL_DIRECTIONS`].
    pub open spec fn index(self) -> int {
        match self {
            Direction::Right => 0,
            Direction::Left => 1,
            Direction::Up => 2,
            Direction::Down => 3,
        }
    }

    /// Position of the direction in [`ALL_DIRECTIONS`].
    #[inline]
    pub fn as_index(&self) -> (i: usize)
        ensures
            i == self.index(),
            i < 4,
            all_directions()[i as int] == *self,
    {
        match self {
            Direction::Right => 0,
            Direction::Left => 1,
            Direction::Up => 2,
            Direction::Down => 3,
        }
    }

    /// All four directions, in the order Right, Left, Up, Down.
    pub fn iterator() -> (all: [Direction; 4])
        ensures
            all@ == all_directions(),
    {
        let all = [Direction::Right, Direction::Left, Direction::Up, Direction::Down];
        assert(all@ =~= all_directions());
        all
    }

    /// The unit step of the direction as a point.
    pub fn to_point(self) -> (p: Point)
        ensures
            p == self.offset(),
    {
        match self {
            Direction::Right => Point { x: 1, y: 0 },
            Direction::Left => Point { x: -1, y: 0 },
            Direction::Up => Point { x: 0, y: 1 },
            Direction::Down => Point { x: 0, y: -1 },
        }
    }

    /// Lower-case name of the direction, as the wire protocol writes it.
    pub open spec fn name_of(self) -> Seq<char> {
        match self {
            Direction::Right => "right"@,
            Direction::Left => "left"@,
            Direction::Up => "up"@,
            Direction::Down => "down"@,
        }
    }

    /// Lower-case name of the direction, as the wire protocol writes it.
    pub fn name(&self) -> (s: &'static str)
        ensures
            s@ == self.name_of(),
    {
        match self {
            Direction::Right => "right",
            Direction::Left => "left",
            Direction::Up => "up",
            Direction::Down => "down",
        }
    }
}

impl Default for Direction {
    /// The fallback direction is `Up`.
    fn default() -> (d: Direction)
        ensures
            d == Direction::Up,
    {
        Direction::Up
    }
}

impl TryFrom<Point> for Direction {
    type Error = Error;

    /// Fails with `FailedConversion` on a point that is no unit step.
    fn try_from(point: Point) -> (r: Result<Direction, Error>)
        ensures
            r == match Direction::of_offset(point) {
                Some(d) => Ok::<Direction, Error>(d),
                None => Err::<Direction, Error>(Error::Engine(ErrorKind::FailedConversion)),
            },
    {
        if point.x == 1 && point.y == 0 {
            Ok(Direction::Right)
        } else if point.x == -1 && point.y == 0 {
            Ok(Direction::Left)
        } else if point.x == 0 && point.y == 1 {
            Ok(Direction::Up)
        } else if point.x == 0 && point.y == -1 {
            Ok(Direction::Down)
        } else {
            Err(Error::Engine(ErrorKind::FailedConversion))
        }
    }
}

impl vstd::std_specs::convert::TryFromSpecImpl<Point> for Direction {
    open spec fn obeys_try_from_spec() -> bool {
        true
    }

    open spec fn try_from_spec(point: Point) -> Result<Direction, Error> {
        match Direction::of_offset(point) {
            Some(d) => Ok(d),
            None => Err(Error::Engine(ErrorKind::FailedConversion)),
        }
    }
}

impl TryFrom<&Point> for Direction {
    type Error = Error;

    /// Fails with `FailedConversion` on a point that is no unit step.
    fn try_from(point: &Point) -> (r: Result<Direction, Error>)
        ensures
            r == match Direction::of_offset(*point) {
                Some(d) => Ok::<Direction, Error>(d),
                None => Err::<Direction, Error>(Error::Engine(ErrorKind::FailedConversion)),
            },
    {
        Direction::try_from(*point)
    }
}

impl vstd::std_specs::convert::TryFromSpecImpl<&Point> for Direction {
    open spec fn obeys_try_from_spec() -> bool {
        true
    }

    open spec fn try_from_spec(point: &Point) -> Result<Direction, Error> {
        match Direction::of_offset(*point) {
            Some(d) => Ok(d),
            None => Err(Error::Engine(ErrorKind::FailedConversion)),
        }
    }
}

} // verus!
