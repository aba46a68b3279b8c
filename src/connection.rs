//! A directed step `from -> to` between two locations, with the number of times it was taken.

use crate::point::Point;
use vstd::prelude::*;

verus! {

/// The directed edge `from -> to` and its weight, the number of times the step was taken.
///
/// Two connections are equal when they join the same ordered pair of points, whatever their
/// weights: `(a, b)` and `(b, a)` are different edges.
#[derive(Clone, Copy, Debug)]
pub struct Connection {
    from: Point,
    to: Point,
    weight: usize,
}

impl View for Connection {
    type V = (Point, Point, nat);

    /// The source, the destination and the weight.
    closed spec fn view(&self) -> (Point, Point, nat) {
        (self.from, self.to, self.weight as nat)
    }
}

impl Connection {
    /// The edge `from -> to`, not yet taken.
    pub fn new(from: Point, to: Point) -> (r: Connection)
        ensures
            r@ == (from, to, 0nat),
    {
        Connection { from, to, weight: 0 }
    }

    pub fn from(&self) -> (r: Point)
        ensures
            r == self@.0,
    {
        self.from
    }

    pub fn to(&self) -> (r: Point)
        ensures
            r == self@.1,
    {
        self.to
    }

    pub fn weight(&self) -> (r: usize)
        ensures
            r == self@.2,
    {
        self.weight
    }

    /// Whether `point` is one of the two ends of this edge.
    pub fn matches(&self, point: &Point) -> (r: bool)
        ensures
            r == (self@.0 == *point || self@.1 == *point),
    {
        self.from == *point || self.to == *point
    }

    /// Counts one more traversal of this edge; the ends stay as they are.
    pub fn increment(&mut self)
        requires
            old(self)@.2 < usize::MAX,
        ensures
            final(self)@ == (old(self)@.0, old(self)@.1, old(self)@.2 + 1),
    {
        self.weight = self.weight + 1;
    }

    /// This edge with its ends kept and its weight set to one.
    pub(crate) fn first_traversal(&self) -> (r: Connection)
        ensures
            r@ == (self@.0, self@.1, 1nat),
    {
        Connection { from: self.from, to: self.to, weight: 1 }
    }
}

impl PartialEq for Connection {
    fn eq(&self, other: &Connection) -> (r: bool)
        ensures
            r == (self@.0 == other@.0 && self@.1 == other@.1),
    {
        self.from == other.from && self.to == other.to
    }
}

impl vstd::std_specs::cmp::PartialEqSpecImpl for Connection {
    open spec fn obeys_eq_spec() -> bool {
        true
    }

    open spec fn eq_spec(&self, other: &Connection) -> bool {
        self@.0 == other@.0 && self@.1 == other@.1
    }
}

impl Eq for Connection {}

} // verus!
