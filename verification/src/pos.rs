//! Positions on a two-dimensional grid.

use vstd::prelude::*;

verus! {

/// A position in 2D space, in whole cells.
#[derive(Clone, Copy, PartialEq, Eq, Hash, Debug, Structural)]
pub struct Position {
    /// Column of the position.
    pub x: i32,
    /// Row of the position.
    pub y: i32,
}

impl Position {
    /// Builds the position with the given column and row.
    pub fn new(x: i32, y: i32) -> (p: Self)
        ensures
            p.x == x,
            p.y == y,
    {
        Position { x, y }
    }
}

} // verus!
