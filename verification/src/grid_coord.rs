//! Integer coordinates on the maze grid.

use vstd::prelude::*;

verus! {

/// A cell position on the grid, counted in whole blocks from the
/// bottom-left corner.
#[derive(Debug, Clone, Copy, Eq, PartialEq, Structural)]
pub struct GridCoord {
    pub x: u32,
    pub y: u32,
}

impl GridCoord {
    pub fn new(x: u32, y: u32) -> (c: Self)
        ensures
            c.x == x,
            c.y == y,
    {
        Self { x, y }
    }

    /// Component-wise difference; both components of `rhs` must not
    /// exceed the corresponding component of `self`.
    pub fn sub(self, rhs: Self) -> (c: Self)
        requires
            rhs.x <= self.x,
            rhs.y <= self.y,
        ensures
            c.x == self.x - rhs.x,
            c.y == self.y - rhs.y,
    {
        Self { x: self.x - rhs.x, y: self.y - rhs.y }
    }
}

impl Default for GridCoord {
    fn default() -> (c: Self)
        ensures
            c.x == 0,
            c.y == 0,
    {
        Self { x: 0, y: 0 }
    }
}

impl From<(u32, u32)> for GridCoord {
    fn from(xy: (u32, u32)) -> (c: Self)
    {
        Self { x: xy.0, y: xy.1 }
    }
}

impl vstd::std_specs::convert::FromSpecImpl<(u32, u32)> for GridCoord {
    open spec fn obeys_from_spec() -> bool {
        true
    }

    open spec fn from_spec(xy: (u32, u32)) -> Self {
        GridCoord { x: xy.0, y: xy.1 }
    }
}

} // verus!
