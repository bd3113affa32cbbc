use vstd::prelude::*;

verus! {

/// A grid position; it may lie outside the grid when used as a query key.
#[derive(Clone, Copy, PartialEq, Eq, Structural, Debug)]
pub struct Coordinates {
    pub x_coord: isize,
    pub y_coord: isize,
}

impl Coordinates {
    pub fn new(x: isize, y: isize) -> (r: Self)
        ensures
            r.x_coord == x,
            r.y_coord == y,
    {
        Self { x_coord: x, y_coord: y }
    }
}

} // verus!
