//! Points of interest in an image.

use vstd::prelude::*;

verus! {

/// A point of an image, on its grid of pixels: `x` is the column and `y` the
/// row, from the top left.
#[derive(Debug, Clone, Copy, PartialEq, Eq, Structural)]
pub struct RXingResultPoint {
    pub x: i64,
    pub y: i64,
}

impl RXingResultPoint {
    /// The point in column `x` of row `y`.
    pub fn new(x: i64, y: i64) -> (r: Self)
        ensures
            r.x == x,
            r.y == y,
    {
        Self { x, y }
    }

    /// The column of the point.
    pub fn getX(&self) -> (r: i64)
        ensures
            r == self.x,
    {
        self.x
    }

    /// The row of the point.
    pub fn getY(&self) -> (r: i64)
        ensures
            r == self.y,
    {
        self.y
    }
}

} // verus!
