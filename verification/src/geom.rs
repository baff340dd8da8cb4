//! Integer vectors used for grid positions and offsets.
use vstd::prelude::*;

verus! {

/// A signed 2D integer vector (grid offsets and positions that may lie outside a grid).
#[derive(Clone, Copy, PartialEq, Eq, Debug, Structural)]
pub struct IVec2 {
    pub x: i32,
    pub y: i32,
}

/// An unsigned 2D integer vector (grid sizes and in-grid positions).
#[derive(Clone, Copy, PartialEq, Eq, Debug, Structural)]
pub struct UVec2 {
    pub x: u32,
    pub y: u32,
}

/// Builds a signed vector.
pub fn ivec2(x: i32, y: i32) -> (r: IVec2)
    ensures
        r == (IVec2 { x, y }),
{
    IVec2 { x, y }
}

/// Builds an unsigned vector.
pub fn uvec2(x: u32, y: u32) -> (r: UVec2)
    ensures
        r == (UVec2 { x, y }),
{
    UVec2 { x, y }
}

} // verus!
