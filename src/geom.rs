//! Points on the screen, in whole points, and distances between them.
use vstd::prelude::*;

verus! {

/// A position on the screen; `y` grows downwards.
#[derive(Clone, Copy, Debug, PartialEq, Eq, Structural)]
pub struct ScreenPoint {
    pub x: i32,
    pub y: i32,
}

/// What the pointer did over one frame.
#[derive(Clone, Copy, Debug, PartialEq, Eq, Structural)]
pub struct PointerInput {
    pub position: ScreenPoint,
    /// The button went down this frame.
    pub pressed: bool,
    /// The button is held.
    pub down: bool,
    /// The button went up this frame.
    pub released: bool,
}

/// Squared distance between two screen positions.
pub open spec fn dist2(a: ScreenPoint, b: ScreenPoint) -> int {
    (a.x - b.x) * (a.x - b.x) + (a.y - b.y) * (a.y - b.y)
}

impl ScreenPoint {
    pub fn new(x: i32, y: i32) -> (r: ScreenPoint)
        ensures
            r == (ScreenPoint { x, y }),
    {
        ScreenPoint { x, y }
    }
}

/// Squared distance between `a` and `b`.
pub fn distance_squared(a: ScreenPoint, b: ScreenPoint) -> (r: i128)
    ensures
        r == dist2(a, b),
        r >= 0,
{
    let dx: i128 = a.x as i128 - b.x as i128;
    let dy: i128 = a.y as i128 - b.y as i128;
    assert(0 <= dx * dx <= 0x1_0000_0000 * 0x1_0000_0000) by (nonlinear_arith)
        requires
            -0x1_0000_0000 <= dx <= 0x1_0000_0000,
    ;
    assert(0 <= dy * dy <= 0x1_0000_0000 * 0x1_0000_0000) by (nonlinear_arith)
        requires
            -0x1_0000_0000 <= dy <= 0x1_0000_0000,
    ;
    dx * dx + dy * dy
}

} // verus!
