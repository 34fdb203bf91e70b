//! Strokes: in the caller's coordinates, and as positions in the catalog.

use vstd::prelude::*;

verus! {

/// A straight segment between two points of the grid. Two strokes are equal
/// when all four coordinates are: the end points are not put in any order.
/// Coordinates are only ever compared, so any encoding of a caller's
/// coordinates that keeps different values apart will do.
#[derive(Clone, Copy, Debug, PartialEq, Eq, Structural)]
pub struct Stroke {
    pub x0: i64,
    pub y0: i64,
    pub x1: i64,
    pub y1: i64,
}

/// A stroke of the catalog, named by its position there.
#[derive(Clone, Copy, Debug, PartialEq, Eq, Structural)]
pub struct InternalStroke {
    pub index: usize,
}

} // verus!
