//! Discrete grid points: the position type used by entity placement.

use vstd::prelude::*;

verus! {

/// A discrete point on a location's cell grid.
#[derive(Copy, Clone, Debug, PartialEq, Eq, Structural, Hash)]
pub struct DPoint2 {
    pub x: i32,
    pub y: i32,
}

impl DPoint2 {
    /// The point as a plain pair, the form stored inside collections.
    pub open spec fn as_pair(self) -> (i32, i32) {
        (self.x, self.y)
    }

    pub fn new(x: i32, y: i32) -> (r: DPoint2)
        ensures
            r.x == x,
            r.y == y,
    {
        DPoint2 { x, y }
    }

    pub fn shift_x(self, shift: i32) -> (r: DPoint2)
        requires
            i32::MIN <= self.x + shift <= i32::MAX,
        ensures
            r.x == self.x + shift,
            r.y == self.y,
    {
        DPoint2 { x: self.x + shift, y: self.y }
    }

    pub fn shift_y(self, shift: i32) -> (r: DPoint2)
        requires
            i32::MIN <= self.y + shift <= i32::MAX,
        ensures
            r.x == self.x,
            r.y == self.y + shift,
    {
        DPoint2 { x: self.x, y: self.y + shift }
    }

    pub fn to_pair(self) -> (r: (i32, i32))
        ensures
            r == self.as_pair(),
    {
        (self.x, self.y)
    }

    pub fn from_pair(p: (i32, i32)) -> (r: DPoint2)
        ensures
            r.as_pair() == p,
    {
        DPoint2 { x: p.0, y: p.1 }
    }
}

/// A point addressed globally: a location and a cell within it.
#[derive(Copy, Clone, Debug, PartialEq, Eq, Structural, Hash)]
pub struct UniversalCoord {
    pub lid: u32,
    pub x: u32,
    pub y: u32,
}

impl UniversalCoord {
    pub fn new(lid: u32, x: u32, y: u32) -> (r: UniversalCoord)
        ensures
            r == (UniversalCoord { lid, x, y }),
    {
        UniversalCoord { lid, x, y }
    }
}

} // verus!
