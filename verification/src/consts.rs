use vstd::prelude::*;

verus! {

/// Tallest ground height that terrain generation may produce.
pub const MAX_FLOOR_HEIGHT: u8 = 2;

/// Tallest wall height that a build edit may raise a tile to.
pub const MAX_BRICK_HEIGHT: u8 = 3;

/// Number of chunk columns generated at startup.
pub const WIDTH: usize = 2;

/// Number of chunk rows generated at startup.
pub const HEIGHT: usize = 2;

} // verus!
