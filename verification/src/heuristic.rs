//! Estimates of the distance that is left to a target.

use vstd::prelude::*;
use crate::point::Point;

verus! {

/// The ways to estimate a distance.
#[derive(Clone, Copy, Debug, PartialEq, Eq, Structural)]
pub enum HeurMethod {
    Manhattan,
    Euclidean,
    /// The Manhattan distance to a fixed target, raised on hazards and on
    /// the cells that a stronger snake's head may enter next.
    Battlesnake,
}

/// What a hazard adds to the estimate at its cell.
pub const HAZARD_PENALTY: i64 = 15;

/// No estimate is farther from zero than this.
pub const VALUE_LIMIT: i64 = 0x4000_0100_0000_0000;

/// The most marks of a kind that a distance field takes.
pub const MAX_MARKS: usize = 0x7fff_ffff;

/// How often `s` holds `p` among its first `n` points.
pub open spec fn count_of(s: Seq<Point>, p: Point, n: int) -> int
    decreases n,
{
    if n <= 0 {
        0
    } else {
        count_of(s, p, n - 1) + if s[n - 1] == p {
            1int
        } else {
            0int
        }
    }
}

/// The value of the distance field of `target` at `p`: one penalty for each
/// time `p` is listed as a hazard, and the health for each time it is
/// listed as a risk of collision.
pub open spec fn field_value(
    hazards: Seq<Point>,
    collision: Seq<Point>,
    health: i32,
    target: Point,
    p: Point,
) -> int {
    p.manhattan(target) + HAZARD_PENALTY * count_of(hazards, p, hazards.len() as int) + health
        * count_of(collision, p, collision.len() as int)
}

/// The whole part of the square root of `n`.
pub open spec fn is_root(n: int, r: int) -> bool {
    0 <= r && r * r <= n < (r + 1) * (r + 1)
}

/// The whole part of the square root of `n`.
pub fn whole_root(n: u128) -> (r: u64)
    requires
        n <= 0x2_0000_0000_0000_0000,
    ensures
        is_root(n as int, r as int),
        r < 0x2_0000_0000,
{
    let mut lo: u128 = 0;
    let mut hi: u128 = 0x2_0000_0000;
    assert(hi * hi > n) by (nonlinear_arith)
        requires
            hi == 0x2_0000_0000,
            n <= 0x2_0000_0000_0000_0000,
    ;
    while hi - lo > 1
        invariant
            lo < hi <= 0x2_0000_0000,
            lo * lo <= n < hi * hi,
        decreases hi - lo,
    {
        let mid = lo + (hi - lo) / 2;
        assert(mid * mid <= 0x2_0000_0000 * 0x2_0000_0000) by (nonlinear_arith)
            requires
                0 <= mid <= 0x2_0000_0000,
        ;
        if mid * mid <= n {
            lo = mid;
        } else {
            hi = mid;
        }
    }
    lo as u64
}

/// What a heuristic is: its method and, for the distance field, the size of
/// the board and one value for each cell, row by row.
pub struct HeuristicModel {
    pub method: HeurMethod,
    pub width: nat,
    pub height: nat,
    pub data: Seq<i64>,
}

impl HeuristicModel {
    pub open spec fn wf(self) -> bool {
        &&& self.data.len() == self.width * self.height
        &&& forall|i: int|
            0 <= i < self.data.len() ==> -VALUE_LIMIT <= #[trigger] self.data[i] <= VALUE_LIMIT
    }

    /// Whether the heuristic has a value for the step that starts at `p`.
    pub open spec fn covers(self, p: Point) -> bool {
        self.method is Battlesnake ==> 0 <= p.x < self.width && 0 <= p.y < self.height
    }

    /// The estimate for the way from `start` to `end`. The distance field
    /// looks at `start` alone.
    pub open spec fn value(self, start: Point, end: Point) -> int {
        match self.method {
            HeurMethod::Manhattan => start.manhattan(end),
            HeurMethod::Euclidean => choose|r: int| is_root(start.dist2(end), r),
            HeurMethod::Battlesnake => self.data[start.y * self.width + start.x] as int,
        }
    }
}

/// An estimate of the distance from one point to another.
pub struct Heuristic {
    method: HeurMethod,
    width: usize,
    height: usize,
    data: Vec<i64>,
}

impl View for Heuristic {
    type V = HeuristicModel;

    closed spec fn view(&self) -> HeuristicModel {
        HeuristicModel {
            method: self.method,
            width: self.width as nat,
            height: self.height as nat,
            data: self.data@,
        }
    }
}

/// The square root has one whole part.
pub proof fn lemma_root_is_unique(n: int, r: int, q: int)
    requires
        is_root(n, r),
        is_root(n, q),
    ensures
        r == q,
{
    if r < q {
        assert((r + 1) * (r + 1) <= q * q) by (nonlinear_arith)
            requires
                0 <= r,
                r + 1 <= q,
        ;
    } else if q < r {
        assert((q + 1) * (q + 1) <= r * r) by (nonlinear_arith)
            requires
                0 <= q,
                q + 1 <= r,
        ;
    }
}

impl Heuristic {
    pub open spec fn wf(&self) -> bool {
        self@.wf()
    }

    /// A heuristic of the given method; a distance field is empty until
    /// `battlesnake_init` fills it.
    pub fn new(heur_method: HeurMethod) -> (h: Heuristic)
        ensures
            h.wf(),
            h@.method == heur_method,
            h@.width == 0,
            h@.height == 0,
    {
        Heuristic { method: heur_method, width: 0, height: 0, data: Vec::new() }
    }

    /// Fills the distance field for `target` on a board of the given size.
    pub fn battlesnake_init(
        &mut self,
        width: usize,
        height: usize,
        hazards: &Vec<Point>,
        collision: &Vec<Point>,
        health: i32,
        target: &Point,
    )
        requires
            width * height <= usize::MAX,
            width <= 0x7fff_ffff,
            height <= 0x7fff_ffff,
            hazards.len() <= MAX_MARKS,
            collision.len() <= MAX_MARKS,
        ensures
            final(self).wf(),
            final(self)@.method == old(self)@.method,
            final(self)@.width == width,
            final(self)@.height == height,
            forall|p: Point|
                0 <= p.x < width && 0 <= p.y < height ==> #[trigger] final(self)@.data[p.y * width
                    + p.x] == field_value(hazards@, collision@, health, *target, p),
    {
        self.width = width;
        self.height = height;
        let mut data: Vec<i64> = Vec::new();
        let mut y: usize = 0;
        while y < height
            invariant
                y <= height,
                width * height <= usize::MAX,
                width <= 0x7fff_ffff,
                height <= 0x7fff_ffff,
                hazards.len() <= MAX_MARKS,
                collision.len() <= MAX_MARKS,
                data.len() == y * width,
                forall|i: int| 0 <= i < data.len() ==> -VALUE_LIMIT <= #[trigger] data@[i] <= VALUE_LIMIT,
                forall|p: Point|
                    0 <= p.x < width && 0 <= p.y < y ==> #[trigger] data@[p.y * width + p.x]
                        == field_value(hazards@, collision@, health, *target, p),
            decreases height - y,
        {
            let mut x: usize = 0;
            while x < width
                invariant
                    x <= width,
                    y < height,
                    width * height <= usize::MAX,
                    width <= 0x7fff_ffff,
                    height <= 0x7fff_ffff,
                    hazards.len() <= MAX_MARKS,
                    collision.len() <= MAX_MARKS,
                    data.len() == y * width + x,
                    forall|i: int|
                        0 <= i < data.len() ==> -VALUE_LIMIT <= #[trigger] data@[i] <= VALUE_LIMIT,
                    forall|p: Point|
                        0 <= p.x < width && (0 <= p.y < y || (p.y == y && p.x < x))
                            ==> #[trigger] data@[p.y * width + p.x] == field_value(
                            hazards@,
                            collision@,
                            health,
                            *target,
                            p,
                        ),
                decreases width - x,
            {
                let p = Point { x: x as i32, y: y as i32 };
                let v = field_at(hazards, collision, health, target, &p);
                let ghost before = data@;
                data.push(v);
                assert forall|c: Point|
                    0 <= c.x < width && (0 <= c.y < y || (c.y == y && c.x < x + 1)) implies #[trigger] data@[c.y
                    * width + c.x] == field_value(hazards@, collision@, health, *target, c) by {
                    let (cx, cy, w) = (c.x as int, c.y as int, width as int);
                    if c == p {
                    } else {
                        assert(0 <= cy * w + cx < y * w + x) by (nonlinear_arith)
                            requires
                                0 <= cx < w,
                                0 <= cy <= y,
                                cy < y || cx < x,
                                0 <= x <= w,
                        ;
                        assert(data@[cy * w + cx] == before[cy * w + cx]);
                    }
                }
                x += 1;
            }
            assert((y + 1) * width == y * width + width) by (nonlinear_arith);
            y += 1;
        }
        assert(height * width == width * height) by (nonlinear_arith);
        self.data = data;
    }

    /// The estimate for the way from `start` to `end`.
    pub fn get_value(&self, start: &Point, end: &Point) -> (v: i64)
        requires
            self.wf(),
            self@.covers(*start),
        ensures
            v == self@.value(*start, *end),
            -VALUE_LIMIT <= v <= VALUE_LIMIT,
    {
        match self.method {
            HeurMethod::Manhattan => start.manhattan_wide(end) as i64,
            HeurMethod::Euclidean => {
                let d = start.distance_squared(end);
                assert(d <= 0x2_0000_0000_0000_0000) by (nonlinear_arith)
                    requires
                        d == (end.x - start.x) * (end.x - start.x) + (end.y - start.y) * (end.y
                            - start.y),
                        -0x1_0000_0000 <= end.x - start.x <= 0x1_0000_0000,
                        -0x1_0000_0000 <= end.y - start.y <= 0x1_0000_0000,
                ;
                let r = whole_root(d);
                proof {
                    let c = choose|c: int| is_root(start.dist2(*end), c);
                    lemma_root_is_unique(start.dist2(*end), r as int, c);
                }
                r as i64
            },
            HeurMethod::Battlesnake => {
                let (x, y) = (start.x as usize, start.y as usize);
                let n = self.data.len();
                proof {
                    let (xi, yi, w, h) = (x as int, y as int, self.width as int, self.height as int);
                    assert(0 <= yi * w && yi * w + xi < w * h) by (nonlinear_arith)
                        requires
                            0 <= xi < w,
                            0 <= yi < h,
                    ;
                    assert(n == w * h);
                    assert(yi * w + xi < n);
                }
                self.data[y * self.width + x]
            },
        }
    }
}

/// How often `v` holds `p`.
fn occurrences(v: &Vec<Point>, p: &Point) -> (n: usize)
    ensures
        n == count_of(v@, *p, v@.len() as int),
        n <= v.len(),
{
    let mut n: usize = 0;
    let mut i: usize = 0;
    while i < v.len()
        invariant
            i <= v.len(),
            n <= i,
            n == count_of(v@, *p, i as int),
        decreases v.len() - i,
    {
        if v[i] == *p {
            n += 1;
        }
        i += 1;
    }
    n
}

/// The value of the distance field of `target` at `p`.
fn field_at(
    hazards: &Vec<Point>,
    collision: &Vec<Point>,
    health: i32,
    target: &Point,
    p: &Point,
) -> (v: i64)
    requires
        hazards.len() <= MAX_MARKS,
        collision.len() <= MAX_MARKS,
    ensures
        v == field_value(hazards@, collision@, health, *target, *p),
        -VALUE_LIMIT <= v <= VALUE_LIMIT,
{
    let d = p.manhattan_wide(target) as i64;
    let h = occurrences(hazards, p) as i64;
    let c = occurrences(collision, p) as i64;
    let hp = health as i64;
    assert(-0x8000_0000 * 0x8000_0000 <= hp * c <= 0x8000_0000 * 0x8000_0000) by (nonlinear_arith)
        requires
            -0x8000_0000 <= hp <= 0x8000_0000,
            0 <= c <= 0x8000_0000,
    ;
    d + 15 * h + hp * c
}

} // verus!
