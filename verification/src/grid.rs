use vstd::prelude::*;

verus! {

/// A grid cell addressed by signed integer coordinates.
#[derive(Clone, Copy, Debug, PartialEq, Eq, Hash)]
pub struct GridCell {
    pub x: i32,
    pub y: i32,
}

impl GridCell {
    pub fn new(x: i32, y: i32) -> (c: GridCell)
        ensures
            c.x == x,
            c.y == y,
    {
        GridCell { x, y }
    }
}

} // verus!
