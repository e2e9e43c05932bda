//! Integer points of the grid and their arithmetic.

use vstd::prelude::*;
use crate::direction::Direction;
use crate::status::{Error, ErrorKind};
use std::ops::{Add, Sub};

verus! {

/// A grid coordinate.
#[derive(Debug, Copy, Clone, PartialEq, Eq, Hash, Structural)]
pub struct Point {
    pub x: i32,
    pub y: i32,
}

/// Absolute value of an integer.
pub open spec fn abs(v: int) -> int {
    if v < 0 {
        -v
    } else {
        v
    }
}

impl Point {
    /// Whether both coordinates of `self + other` are representable.
    pub open spec fn can_add(self, other: Point) -> bool {
        &&& i32::MIN <= self.x + other.x <= i32::MAX
        &&& i32::MIN <= self.y + other.y <= i32::MAX
    }

    /// Whether both coordinates of `self - other` are representable.
    pub open spec fn can_sub(self, other: Point) -> bool {
        &&& i32::MIN <= self.x - other.x <= i32::MAX
        &&& i32::MIN <= self.y - other.y <= i32::MAX
    }

    /// Coordinate-wise sum.
    pub open spec fn plus(self, other: Point) -> Point {
        Point { x: (self.x + other.x) as i32, y: (self.y + other.y) as i32 }
    }

    /// Coordinate-wise difference.
    pub open spec fn minus(self, other: Point) -> Point {
        Point { x: (self.x - other.x) as i32, y: (self.y - other.y) as i32 }
    }

    /// The point one step away in direction `dir`.
    pub open spec fn step(self, dir: Direction) -> Point {
        self.plus(dir.offset())
    }

    /// Whether a step in any direction stays representable.
    pub open spec fn can_step(self) -> bool {
        &&& i32::MIN < self.x < i32::MAX
        &&& i32::MIN < self.y < i32::MAX
    }

    /// The four neighbours in the order Right, Left, Up, Down.
    pub open spec fn neighbours(self) -> Seq<Point> {
        seq![
            self.step(Direction::Right),
            self.step(Direction::Left),
            self.step(Direction::Up),
            self.step(Direction::Down),
        ]
    }

    /// Manhattan distance between two points.
    pub open spec fn manhattan(self, other: Point) -> int {
        abs(other.x - self.x) + abs(other.y - self.y)
    }

    /// Square of the Euclidean distance between two points.
    pub open spec fn dist2(self, other: Point) -> int {
        (other.x - self.x) * (other.x - self.x) + (other.y - self.y) * (other.y - self.y)
    }

    /// `k` is the first index of `others` at which the squared Euclidean
    /// distance to `self` is the least.
    pub open spec fn first_closest_euclidean(self, others: Seq<Point>, k: int) -> bool {
        &&& 0 <= k < others.len()
        &&& forall|j: int| 0 <= j < others.len() ==> self.dist2(others[k]) <= self.dist2(#[trigger] others[j])
        &&& forall|j: int| 0 <= j < k ==> self.dist2(others[k]) < self.dist2(#[trigger] others[j])
    }

    /// `k` is the first index of `others` at which the Manhattan distance to
    /// `self` is the least.
    pub open spec fn first_closest_manhattan(self, others: Seq<Point>, k: int) -> bool {
        &&& 0 <= k < others.len()
        &&& forall|j: int| 0 <= j < others.len() ==> self.manhattan(others[k]) <= self.manhattan(#[trigger] others[j])
        &&& forall|j: int| 0 <= j < k ==> self.manhattan(others[k]) < self.manhattan(#[trigger] others[j])
    }

    pub fn new(x: i32, y: i32) -> (p: Point)
        ensures
            p == (Point { x, y }),
    {
        Point { x, y }
    }

    /// The origin.
    pub fn zero() -> (p: Point)
        ensures
            p == (Point { x: 0, y: 0 }),
    {
        Point { x: 0, y: 0 }
    }

    pub fn get_x(&self) -> (x: i32)
        ensures
            x == self.x,
    {
        self.x
    }

    pub fn get_y(&self) -> (y: i32)
        ensures
            y == self.y,
    {
        self.y
    }

    pub fn get_right(&self) -> (p: Point)
        requires
            self.x < i32::MAX,
        ensures
            p == self.step(Direction::Right),
            p == (Point { x: (self.x + 1) as i32, y: self.y }),
    {
        Point { x: self.x + 1, y: self.y }
    }

    pub fn get_left(&self) -> (p: Point)
        requires
            self.x > i32::MIN,
        ensures
            p == self.step(Direction::Left),
            p == (Point { x: (self.x - 1) as i32, y: self.y }),
    {
        Point { x: self.x - 1, y: self.y }
    }

    pub fn get_up(&self) -> (p: Point)
        requires
            self.y < i32::MAX,
        ensures
            p == self.step(Direction::Up),
            p == (Point { x: self.x, y: (self.y + 1) as i32 }),
    {
        Point { x: self.x, y: self.y + 1 }
    }

    pub fn get_down(&self) -> (p: Point)
        requires
            self.y > i32::MIN,
        ensures
            p == self.step(Direction::Down),
            p == (Point { x: self.x, y: (self.y - 1) as i32 }),
    {
        Point { x: self.x, y: self.y - 1 }
    }

    /// The four neighbours in the order Right, Left, Up, Down.
    pub fn get_neighbours(&self) -> (v: Vec<Point>)
        requires
            self.can_step(),
        ensures
            v@ == self.neighbours(),
            v.len() == 4,
    {
        let v = vec![self.get_right(), self.get_left(), self.get_up(), self.get_down()];
        assert(v@ =~= self.neighbours());
        v
    }

    /// Square of the Euclidean distance to `other`.
    pub fn distance_squared(&self, other: &Point) -> (d: u128)
        ensures
            d == self.dist2(*other),
    {
        let dx: i128 = other.x as i128 - self.x as i128;
        let dy: i128 = other.y as i128 - self.y as i128;
        assert(0 <= dx * dx <= 0x1_0000_0000_0000_0000) by (nonlinear_arith)
            requires
                -0x1_0000_0000 <= dx <= 0x1_0000_0000,
        ;
        assert(0 <= dy * dy <= 0x1_0000_0000_0000_0000) by (nonlinear_arith)
            requires
                -0x1_0000_0000 <= dy <= 0x1_0000_0000,
        ;
        (dx * dx + dy * dy) as u128
    }

    /// Manhattan distance to `other`, in a type that always holds it.
    pub fn manhattan_wide(&self, other: &Point) -> (d: u64)
        ensures
            d == self.manhattan(*other),
            d <= 0x1_ffff_fffe,
    {
        let dx: i64 = other.x as i64 - self.x as i64;
        let dy: i64 = other.y as i64 - self.y as i64;
        let ax: i64 = if dx < 0 { -dx } else { dx };
        let ay: i64 = if dy < 0 { -dy } else { dy };
        (ax + ay) as u64
    }

    /// Manhattan distance to `other`.
    pub fn manhattan_distance(&self, other: &Point) -> (d: usize)
        requires
            self.manhattan(*other) <= usize::MAX,
        ensures
            d == self.manhattan(*other),
    {
        self.manhattan_wide(other) as usize
    }

    /// The first of `others` that is closest to `self` by Euclidean distance,
    /// or the point (-1, -1) when `others` is empty.
    pub fn find_closest(&self, others: Vec<Point>) -> (best: Point)
        ensures
            others.len() == 0 ==> best == (Point { x: -1i32, y: -1i32 }),
            others.len() > 0 ==> exists|k: int| #[trigger]
                self.first_closest_euclidean(others@, k) && best == others[k],
    {
        match self.find_closest_euclidean(&others) {
            Some(p) => p,
            None => Point { x: -1, y: -1 },
        }
    }

    /// The first of `others` that is closest to `self` by Euclidean distance.
    pub fn find_closest_euclidean(&self, others: &Vec<Point>) -> (best: Option<Point>)
        ensures
            others.len() == 0 <==> best is None,
            best is Some ==> exists|k: int| #[trigger]
                self.first_closest_euclidean(others@, k) && best == Some(others[k]),
    {
        if others.len() == 0 {
            return None;
        }
        let mut k: usize = 0;
        let mut min_d: u128 = self.distance_squared(&others[0]);
        let mut i: usize = 1;
        while i < others.len()
            invariant
                1 <= i <= others.len(),
                k < i,
                min_d == self.dist2(others[k as int]),
                forall|j: int| 0 <= j < i ==> min_d <= self.dist2(#[trigger] others@[j]),
                forall|j: int| 0 <= j < k ==> min_d < self.dist2(#[trigger] others@[j]),
            decreases others.len() - i,
        {
            let d = self.distance_squared(&others[i]);
            if d < min_d {
                min_d = d;
                k = i;
            }
            i += 1;
        }
        assert(self.first_closest_euclidean(others@, k as int));
        Some(others[k])
    }

    /// The first of `others` that is closest to `self` by Manhattan distance.
    pub fn find_closest_manhattan(&self, others: &Vec<Point>) -> (best: Option<Point>)
        ensures
            others.len() == 0 <==> best is None,
            best is Some ==> exists|k: int| #[trigger]
                self.first_closest_manhattan(others@, k) && best == Some(others[k]),
    {
        if others.len() == 0 {
            return None;
        }
        let mut k: usize = 0;
        let mut min_d: u64 = self.manhattan_wide(&others[0]);
        let mut i: usize = 1;
        while i < others.len()
            invariant
                1 <= i <= others.len(),
                k < i,
                min_d == self.manhattan(others[k as int]),
                forall|j: int| 0 <= j < i ==> min_d <= self.manhattan(#[trigger] others@[j]),
                forall|j: int| 0 <= j < k ==> min_d < self.manhattan(#[trigger] others@[j]),
            decreases others.len() - i,
        {
            let d = self.manhattan_wide(&others[i]);
            if d < min_d {
                min_d = d;
                k = i;
            }
            i += 1;
        }
        assert(self.first_closest_manhattan(others@, k as int));
        Some(others[k])
    }

    /// The direction of the single step that leads from `self` to
    /// `neighbour`, if one does.
    pub fn get_neighbour_direction(self, neighbour: Point) -> (dir: Option<Direction>)
        ensures
            dir == Direction::of_delta(neighbour.x - self.x, neighbour.y - self.y),
    {
        let dx: i64 = neighbour.x as i64 - self.x as i64;
        let dy: i64 = neighbour.y as i64 - self.y as i64;
        if dx == 1 && dy == 0 {
            Some(Direction::Right)
        } else if dx == -1 && dy == 0 {
            Some(Direction::Left)
        } else if dx == 0 && dy == 1 {
            Some(Direction::Up)
        } else if dx == 0 && dy == -1 {
            Some(Direction::Down)
        } else {
            None
        }
    }

    /// The direction of the single step that leads from `self` to `other`,
    /// or the error `FailedConversion` when the two are not one step apart.
    pub fn direction_to_other(&self, other: &Point) -> (r: Result<Direction, Error>)
        ensures
            match Direction::of_delta(other.x - self.x, other.y - self.y) {
                Some(d) => r == Ok::<Direction, Error>(d),
                None => r == Err::<Direction, Error>(Error::Engine(ErrorKind::FailedConversion)),
            },
    {
        match self.get_neighbour_direction(*other) {
            Some(d) => Ok(d),
            None => Err(Error::Engine(ErrorKind::FailedConversion)),
        }
    }

    /// Whether `other` is exactly one step away.
    pub fn is_neighbour(self, other: Point) -> (b: bool)
        ensures
            b == (self.manhattan(other) == 1),
    {
        self.manhattan_wide(&other) == 1
    }

    pub fn is_not_negative(&self) -> (b: bool)
        ensures
            b == (self.x >= 0 && self.y >= 0),
    {
        self.x >= 0 && self.y >= 0
    }
}

impl Default for Point {
    /// The origin.
    fn default() -> (p: Point)
        ensures
            p == (Point { x: 0, y: 0 }),
    {
        Point { x: 0, y: 0 }
    }
}

impl From<Direction> for Point {
    fn from(dir: Direction) -> (p: Point)
        ensures
            p == dir.offset(),
    {
        dir.to_point()
    }
}

impl vstd::std_specs::convert::FromSpecImpl<Direction> for Point {
    open spec fn obeys_from_spec() -> bool {
        true
    }

    open spec fn from_spec(dir: Direction) -> Point {
        dir.offset()
    }
}

impl From<&Direction> for Point {
    fn from(dir: &Direction) -> (p: Point)
        ensures
            p == dir.offset(),
    {
        dir.to_point()
    }
}

impl vstd::std_specs::convert::FromSpecImpl<&Direction> for Point {
    open spec fn obeys_from_spec() -> bool {
        true
    }

    open spec fn from_spec(dir: &Direction) -> Point {
        dir.offset()
    }
}

impl Add for Point {
    type Output = Point;

    fn add(self, other: Point) -> (r: Point)
        ensures
            r == self.plus(other),
    {
        Point { x: self.x + other.x, y: self.y + other.y }
    }
}

impl vstd::std_specs::ops::AddSpecImpl for Point {
    open spec fn obeys_add_spec() -> bool {
        true
    }

    open spec fn add_req(self, other: Point) -> bool {
        self.can_add(other)
    }

    open spec fn add_spec(self, other: Point) -> Point {
        self.plus(other)
    }
}

impl Add<&Point> for Point {
    type Output = Point;

    fn add(self, other: &Point) -> (r: Point)
        ensures
            r == self.plus(*other),
    {
        Point { x: self.x + other.x, y: self.y + other.y }
    }
}

impl vstd::std_specs::ops::AddSpecImpl<&Point> for Point {
    open spec fn obeys_add_spec() -> bool {
        true
    }

    open spec fn add_req(self, other: &Point) -> bool {
        self.can_add(*other)
    }

    open spec fn add_spec(self, other: &Point) -> Point {
        self.plus(*other)
    }
}

impl Add<Direction> for Point {
    type Output = Point;

    fn add(self, dir: Direction) -> (r: Point)
        ensures
            r == self.step(dir),
    {
        self + dir.to_point()
    }
}

impl vstd::std_specs::ops::AddSpecImpl<Direction> for Point {
    open spec fn obeys_add_spec() -> bool {
        true
    }

    open spec fn add_req(self, dir: Direction) -> bool {
        self.can_add(dir.offset())
    }

    open spec fn add_spec(self, dir: Direction) -> Point {
        self.step(dir)
    }
}

impl Add<&Direction> for Point {
    type Output = Point;

    fn add(self, dir: &Direction) -> (r: Point)
        ensures
            r == self.step(*dir),
    {
        self + dir.to_point()
    }
}

impl vstd::std_specs::ops::AddSpecImpl<&Direction> for Point {
    open spec fn obeys_add_spec() -> bool {
        true
    }

    open spec fn add_req(self, dir: &Direction) -> bool {
        self.can_add(dir.offset())
    }

    open spec fn add_spec(self, dir: &Direction) -> Point {
        self.step(*dir)
    }
}

impl Sub for Point {
    type Output = Point;

    fn sub(self, other: Point) -> (r: Point)
        ensures
            r == self.minus(other),
    {
        Point { x: self.x - other.x, y: self.y - other.y }
    }
}

impl vstd::std_specs::ops::SubSpecImpl for Point {
    open spec fn obeys_sub_spec() -> bool {
        true
    }

    open spec fn sub_req(self, other: Point) -> bool {
        self.can_sub(other)
    }

    open spec fn sub_spec(self, other: Point) -> Point {
        self.minus(other)
    }
}

impl Sub<&Point> for Point {
    type Output = Point;

    fn sub(self, other: &Point) -> (r: Point)
        ensures
            r == self.minus(*other),
    {
        Point { x: self.x - other.x, y: self.y - other.y }
    }
}

impl vstd::std_specs::ops::SubSpecImpl<&Point> for Point {
    open spec fn obeys_sub_spec() -> bool {
        true
    }

    open spec fn sub_req(self, other: &Point) -> bool {
        self.can_sub(*other)
    }

    open spec fn sub_spec(self, other: &Point) -> Point {
        self.minus(*other)
    }
}

impl Sub<Direction> for Point {
    type Output = Point;

    fn sub(self, dir: Direction) -> (r: Point)
        ensures
            r == self.minus(dir.offset()),
    {
        self - dir.to_point()
    }
}

impl vstd::std_specs::ops::SubSpecImpl<Direction> for Point {
    open spec fn obeys_sub_spec() -> bool {
        true
    }

    open spec fn sub_req(self, dir: Direction) -> bool {
        self.can_sub(dir.offset())
    }

    open spec fn sub_spec(self, dir: Direction) -> Point {
        self.minus(dir.offset())
    }
}

impl Sub<&Direction> for Point {
    type Output = Point;

    fn sub(self, dir: &Direction) -> (r: Point)
        ensures
            r == self.minus(dir.offset()),
    {
        self - dir.to_point()
    }
}

impl vstd::std_specs::ops::SubSpecImpl<&Direction> for Point {
    open spec fn obeys_sub_spec() -> bool {
        true
    }

    open spec fn sub_req(self, dir: &Direction) -> bool {
        self.can_sub(dir.offset())
    }

    open spec fn sub_spec(self, dir: &Direction) -> Point {
        self.minus(dir.offset())
    }
}

} // verus!
