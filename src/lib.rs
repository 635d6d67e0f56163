//! Exact lattice rasterisation of segments and balls over canonical rationals.

pub mod gcd;
pub mod rational;
pub mod point;
pub mod line2d;
pub mod line_laws;
pub mod ball;
pub mod line3d;
pub mod sweep;
