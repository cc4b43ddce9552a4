//! Direction commands a camera controller consumes; the camera itself is
//! floating-point rendering state and lives with the render loop, outside
//! this library.

use vstd::prelude::*;

verus! {

/// A translation direction for camera movement.
#[derive(Clone, Copy, Debug, PartialEq, Eq, Structural)]
pub enum CameraMovementDir {
    Forward,
    Backward,
    Upward,
    Downward,
    Left,
    Right,
}

/// A rotation direction for camera movement.
#[derive(Clone, Copy, Debug, PartialEq, Eq, Structural)]
pub enum CameraRotationDir {
    Upward,
    Downward,
    Left,
    Right,
}

} // verus!
