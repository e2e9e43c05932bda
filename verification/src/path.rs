//! Paths: ordered lists of points, head first.

use vstd::prelude::*;
use crate::direction::Direction;
use crate::point::Point;

verus! {

/// An ordered list of points; index 0 is the head.
#[derive(Debug, PartialEq)]
pub struct Path {
    pub nodes: Vec<Point>,
}

impl View for Path {
    type V = Seq<Point>;

    open spec fn view(&self) -> Seq<Point> {
        self.nodes@
    }
}

/// The point at index `i`, if the path is that long.
pub open spec fn node_at(s: Seq<Point>, i: int) -> Option<Point> {
    if 0 <= i < s.len() {
        Some(s[i])
    } else {
        None
    }
}

/// The path with a new head at `offset` from the old one; an empty path
/// stays empty.
pub open spec fn extended_front(s: Seq<Point>, offset: Point) -> Seq<Point> {
    if s.len() == 0 {
        s
    } else {
        seq![s[0].plus(offset)] + s
    }
}

/// The path with a new tail at `offset` from the old one; an empty path
/// stays empty.
pub open spec fn extended_back(s: Seq<Point>, offset: Point) -> Seq<Point> {
    if s.len() == 0 {
        s
    } else {
        s.push(s.last().plus(offset))
    }
}

/// The path moved one step in direction `dir`: a new head, the old tail
/// dropped.
pub open spec fn slid_front(s: Seq<Point>, dir: Direction) -> Seq<Point> {
    if s.len() == 0 {
        s
    } else {
        extended_front(s, dir.offset()).drop_last()
    }
}

/// A path read by index gives back the list of points it was built from.
pub proof fn lemma_path_round_trip(points: Seq<Point>, i: int)
    ensures
        0 <= i < points.len() ==> node_at(points, i) == Some(points[i]),
        !(0 <= i < points.len()) ==> node_at(points, i) is None,
{
}

/// Sliding a path forward keeps its length.
pub proof fn lemma_slide_front_keeps_length(s: Seq<Point>, dir: Direction)
    ensures
        slid_front(s, dir).len() == s.len(),
{
}

/// Extending a path that has a tail at its back makes it longer by exactly
/// one.
pub proof fn lemma_extend_back_adds_one(s: Seq<Point>, offset: Point)
    requires
        s.len() > 0,
    ensures
        extended_back(s, offset).len() == s.len() + 1,
{
}

impl Path {
    /// The empty path.
    pub fn new() -> (p: Path)
        ensures
            p@ == Seq::<Point>::empty(),
    {
        Path { nodes: Vec::new() }
    }

    /// The empty path with room for `capacity` points.
    pub fn with_capacity(capacity: usize) -> (p: Path)
        ensures
            p@ == Seq::<Point>::empty(),
    {
        Path { nodes: Vec::with_capacity(capacity) }
    }

    /// The path that holds `nodes`, in their order.
    pub fn from_vec(nodes: Vec<Point>) -> (p: Path)
        ensures
            p@ == nodes@,
    {
        Path { nodes }
    }

    /// Puts a new head at `offset` from the present one; does nothing to an
    /// empty path.
    pub fn extend_front(&mut self, offset: &Point)
        requires
            old(self)@.len() > 0 ==> old(self)@[0].can_add(*offset),
        ensures
            final(self)@ == extended_front(old(self)@, *offset),
    {
        if self.nodes.len() > 0 {
            let new_head = self.nodes[0] + *offset;
            self.nodes.insert(0, new_head);
            assert(self@ =~= extended_front(old(self)@, *offset));
        }
    }

    /// Puts a new head one step in direction `dir` from the present one; does
    /// nothing to an empty path.
    pub fn extend_front_dir(&mut self, dir: &Direction)
        requires
            old(self)@.len() > 0 ==> old(self)@[0].can_add(dir.offset()),
        ensures
            final(self)@ == extended_front(old(self)@, dir.offset()),
    {
        if self.nodes.len() > 0 {
            let new_head = self.nodes[0] + *dir;
            self.nodes.insert(0, new_head);
            assert(self@ =~= extended_front(old(self)@, dir.offset()));
        }
    }

    /// Puts a new tail at `offset` from the present one; does nothing to an
    /// empty path.
    pub fn extend_back(&mut self, offset: &Point)
        requires
            old(self)@.len() > 0 ==> old(self)@.last().can_add(*offset),
        ensures
            final(self)@ == extended_back(old(self)@, *offset),
    {
        let n = self.nodes.len();
        if n > 0 {
            let new_tail = self.nodes[n - 1] + *offset;
            self.nodes.push(new_tail);
        }
    }

    /// The head.
    pub fn first(&self) -> (p: Option<Point>)
        ensures
            p == node_at(self@, 0),
    {
        if self.nodes.len() > 0 {
            Some(self.nodes[0])
        } else {
            None
        }
    }

    /// The tail.
    pub fn last(&self) -> (p: Option<Point>)
        ensures
            p == node_at(self@, self@.len() - 1),
    {
        let n = self.nodes.len();
        if n > 0 {
            Some(self.nodes[n - 1])
        } else {
            None
        }
    }

    /// The point at `index`.
    pub fn get_node(&self, index: usize) -> (p: Option<Point>)
        ensures
            p == node_at(self@, index as int),
    {
        if index < self.nodes.len() {
            Some(self.nodes[index])
        } else {
            None
        }
    }

    /// Moves the path one step in direction `dir`; the length stays.
    pub fn slide_front(&mut self, dir: &Direction)
        requires
            old(self)@.len() > 0 ==> old(self)@[0].can_add(dir.offset()),
        ensures
            final(self)@ == slid_front(old(self)@, *dir),
            final(self)@.len() == old(self)@.len(),
    {
        self.extend_front_dir(dir);
        self.nodes.pop();
    }
}

impl Clone for Path {
    fn clone(&self) -> (p: Path)
        ensures
            p@ == self@,
    {
        let nodes = self.nodes.clone();
        assert(nodes@ =~= self.nodes@);
        Path { nodes }
    }
}

impl From<Vec<Point>> for Path {
    fn from(input: Vec<Point>) -> (p: Path)
        ensures
            p@ == input@,
    {
        Path { nodes: input }
    }
}

impl vstd::std_specs::convert::FromSpecImpl<Vec<Point>> for Path {
    open spec fn obeys_from_spec() -> bool {
        true
    }

    open spec fn from_spec(input: Vec<Point>) -> Path {
        Path { nodes: input }
    }
}

impl From<&Vec<Point>> for Path {
    fn from(input: &Vec<Point>) -> (p: Path)
        ensures
            p@ == input@,
    {
        let nodes = input.clone();
        assert(nodes@ =~= input@);
        Path { nodes }
    }
}

/// The path made of a borrowed list is a copy: what it holds is stated by
/// `from` itself.
impl vstd::std_specs::convert::FromSpecImpl<&Vec<Point>> for Path {
    open spec fn obeys_from_spec() -> bool {
        false
    }

    open spec fn from_spec(input: &Vec<Point>) -> Path {
        Path { nodes: *input }
    }
}

} // verus!
