//! Shared value types: grid coordinates, structure identifiers and the
//! events a world emits while it runs.

use vstd::prelude::*;

verus! {

/// Largest coordinate magnitude the grid supports. Keeping positions inside
/// this range lets every neighbour computation (offsets of at most two
/// tiles) stay inside `i32`.
pub const COORD_LIMIT: i32 = 500000000;

/// An integer tile coordinate on the grid.
#[derive(Clone, Copy, Debug, PartialEq, Eq, Hash, Structural)]
pub struct Vec2i {
    pub x: i32,
    pub y: i32,
}

impl Vec2i {
    /// True when both coordinates are far enough from the `i32` boundary
    /// that footprint and neighbour tiles can be computed without overflow.
    pub open spec fn in_range(self) -> bool {
        -COORD_LIMIT <= self.x <= COORD_LIMIT && -COORD_LIMIT <= self.y <= COORD_LIMIT
    }
}

/// Identifier of a placed structure; allocated monotonically and never
/// reused within a session.
pub type BuildingId = u64;

} // verus!
