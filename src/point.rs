//! A board coordinate.
use vstd::prelude::*;

verus! {

/// Column `x` and row `y` of a cell, both in `0..9`.
#[derive(Debug, PartialEq, Eq, Structural, Clone, Copy, Hash)]
pub struct Point {
    pub x: u8,
    pub y: u8,
}

impl Point {
    pub open spec fn wf(&self) -> bool {
        self.x < 9 && self.y < 9
    }

    pub fn new(x: u8, y: u8) -> (r: Point)
        requires
            x < 9,
            y < 9,
        ensures
            r.x == x,
            r.y == y,
            r.wf(),
    {
        Point { x, y }
    }
}

} // verus!
