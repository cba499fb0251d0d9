//! Integer cell coordinates.

use vstd::prelude::*;

verus! {

/// A cell coordinate: `x` grows to the right, `y` grows downwards.
#[derive(Clone, Copy, Debug, PartialEq, Eq, Structural, Hash)]
pub struct Position {
    pub x: i32,
    pub y: i32,
}

impl Position {
    pub fn new(x: i32, y: i32) -> (p: Position)
        ensures
            p.x == x,
            p.y == y,
    {
        Position { x, y }
    }

    /// Whether the cell lies inside a `width` x `height` rectangle.
    pub open spec fn within(self, width: int, height: int) -> bool {
        0 <= self.x < width && 0 <= self.y < height
    }

    /// Whether `other` is one step to the left, right, below or above `self`.
    pub open spec fn adjacent(self, other: Position) -> bool {
        ||| (other.y == self.y && (other.x == self.x - 1 || other.x == self.x + 1))
        ||| (other.x == self.x && (other.y == self.y - 1 || other.y == self.y + 1))
    }
}

} // verus!
