//! Small value types shared by the rest of the crate.

use crate::pos::Position;
use vstd::prelude::*;
use vstd::std_specs::convert::FromSpecImpl;

verus! {

/// A pair of coordinates of any type.
#[derive(Debug, Copy, Clone, PartialEq)]
pub struct Vec2<T> {
    /// X dimension
    pub x: T,
    /// Y dimension
    pub y: T,
}

impl<T> Vec2<T> {
    /// Builds the pair from its two coordinates.
    pub fn new(x: T, y: T) -> (v: Self)
        ensures
            v.x == x,
            v.y == y,
    {
        Vec2 { x, y }
    }
}

impl From<Position> for Vec2<i32> {
    fn from(value: Position) -> (v: Self) {
        Vec2::new(value.x, value.y)
    }
}

impl FromSpecImpl<Position> for Vec2<i32> {
    open spec fn obeys_from_spec() -> bool {
        true
    }

    open spec fn from_spec(value: Position) -> Self {
        Vec2 { x: value.x, y: value.y }
    }
}

impl From<Vec2<i32>> for Position {
    fn from(value: Vec2<i32>) -> (p: Self) {
        Position { x: value.x, y: value.y }
    }
}

impl FromSpecImpl<Vec2<i32>> for Position {
    open spec fn obeys_from_spec() -> bool {
        true
    }

    open spec fn from_spec(value: Vec2<i32>) -> Self {
        Position { x: value.x, y: value.y }
    }
}

} // verus!
