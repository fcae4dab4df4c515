//! Small geometry helpers shared by interface layers.

use vstd::prelude::*;

verus! {

/// A two-component vector stored as raw 32-bit patterns, so it can be
/// hashed and compared exactly where floating-point coordinates could not.
#[derive(Clone, Copy, Debug, Default, Eq, Hash, PartialEq, Structural)]
pub struct Vec2u {
    pub x: u32,
    pub y: u32,
}

impl Vec2u {
    /// Packs two raw component patterns.
    pub fn from_bits(x: u32, y: u32) -> (r: Vec2u)
        ensures
            r.x == x && r.y == y,
    {
        Vec2u { x, y }
    }
}

} // verus!
