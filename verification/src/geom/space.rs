//! Integer coordinates of the geometric space.

use vstd::prelude::*;

verus! {

/// A point of the three-dimensional integer lattice.
#[derive(Clone, Copy, Debug, PartialEq, Eq, Hash, Structural)]
pub struct Coordinate3 {
    pub x: i64,
    pub y: i64,
    pub z: i64,
}

impl Coordinate3 {
    pub fn new(x: i64, y: i64, z: i64) -> (c: Self)
        ensures
            c == (Coordinate3 { x, y, z }),
    {
        Coordinate3 { x, y, z }
    }
}

} // verus!
