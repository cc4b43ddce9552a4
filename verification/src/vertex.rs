//! The renderable output of geometry extraction: line-segment endpoints with
//! per-endpoint colors, in fixed-point coordinates.

use vstd::prelude::*;

use crate::fixed::{Vec3, FX_ONE};

verus! {

/// One endpoint of a rendered line segment.
#[derive(Clone, Copy, Debug, PartialEq, Eq, Structural)]
pub struct Vertex {
    pub loc: Vec3,
    pub color: Vec3,
}

/// The color of a segment's start point: green.
pub open spec fn color_start_s() -> Vec3 {
    Vec3 { x: 0, y: FX_ONE, z: 0 }
}

/// The color of a segment's end point: black.
pub open spec fn color_end_s() -> Vec3 {
    Vec3 { x: 0, y: 0, z: 0 }
}

/// The start-point color as a value.
pub fn color_start() -> (r: Vec3)
    ensures
        r == color_start_s(),
{
    Vec3 { x: 0, y: FX_ONE, z: 0 }
}

/// The end-point color as a value.
pub fn color_end() -> (r: Vec3)
    ensures
        r == color_end_s(),
{
    Vec3 { x: 0, y: 0, z: 0 }
}

} // verus!
