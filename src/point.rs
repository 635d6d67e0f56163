//! Lattice points in the plane and in space, and points with rational coordinates.
use vstd::prelude::*;
use crate::rational::Rational;

verus! {

/// An integer point of the plane; ordered by `x`, then `y`.
#[derive(Debug, Clone, Copy, PartialEq, Eq, PartialOrd, Ord, Hash, Structural)]
pub struct Point2D {
    pub x: isize,
    pub y: isize,
}

/// An integer point of space; ordered by `x`, then `y`, then `z`.
#[derive(Debug, Clone, Copy, PartialEq, Eq, PartialOrd, Ord, Hash, Structural)]
pub struct Point3D {
    pub x: isize,
    pub y: isize,
    pub z: isize,
}

/// A point of the plane with exact rational coordinates.
#[derive(Debug, Clone, Copy)]
pub struct RationalPoint2D {
    pub x: Rational,
    pub y: Rational,
}

pub open spec fn min(a: int, b: int) -> int {
    if a <= b {
        a
    } else {
        b
    }
}

pub open spec fn max(a: int, b: int) -> int {
    if a >= b {
        a
    } else {
        b
    }
}

} // verus!
