//! The circular angle slider: a bounded angle edited by dragging a handle
//! around a ring, or by typing a number into its centre field.
use vstd::prelude::*;
use crate::angle::{clamped, snapped, wrapped, clamp_angle, snap_angle, FULL_TURN, HALF_TURN};
use crate::decimal::{read_millis, parse_millidegrees};
use vstd::string::StringSliceAdditionalSpecFns;
use crate::geom::{dist2, distance_squared, PointerInput, ScreenPoint};

verus! {

/// A drag moves the value only when it differs by more than this many
/// millidegrees.
pub const CHANGE_EPSILON: i32 = 1;

/// Inner radius of the grab zone, in points.
pub const GRAB_INNER_RADIUS: i32 = 15;

/// How far the grab zone reaches beyond the ring, in points.
pub const GRAB_MARGIN: i32 = 25;

/// Whether the pointer is in the annulus where the slider may be grabbed.
pub open spec fn grab_zone_contains(pointer: ScreenPoint, center: ScreenPoint, radius: int) -> bool {
    let outer = radius + GRAB_MARGIN;
    &&& GRAB_INNER_RADIUS * GRAB_INNER_RADIUS <= dist2(pointer, center)
    &&& outer >= 0
    &&& dist2(pointer, center) <= outer * outer
}

/// The value a drag asks for, given the pointer's angle (clockwise from the
/// top of the ring, in millidegrees).
pub open spec fn drag_value(pointer_angle: int, v_min: int, v_max: int, snapping: bool) -> int {
    let w = wrapped(pointer_angle);
    clamped(if snapping { snapped(w) } else { w }, v_min, v_max)
}

/// Whether two values differ by more than `CHANGE_EPSILON`.
pub open spec fn differs(a: int, b: int) -> bool {
    a - b > CHANGE_EPSILON || b - a > CHANGE_EPSILON
}

/// Whether a slider of the given radius centred at `center` highlights its
/// ring for the pointer; `hovered` says whether the pointer is over the widget.
pub fn in_grab_zone(pointer: ScreenPoint, center: ScreenPoint, radius: i32, hovered: bool) -> (r: bool)
    ensures
        r == (hovered && grab_zone_contains(pointer, center, radius as int)),
{
    let d2 = distance_squared(pointer, center);
    let outer: i128 = radius as i128 + GRAB_MARGIN as i128;
    let inner: i128 = GRAB_INNER_RADIUS as i128;
    assert(outer * outer <= 0x1_0000_0000 * 0x1_0000_0000) by (nonlinear_arith)
        requires
            -0x1_0000_0000 <= outer <= 0x1_0000_0000,
    ;
    hovered && inner * inner <= d2 && outer >= 0 && d2 <= outer * outer
}

/// The value that a drag to `pointer_angle` asks for: wrapped into the
/// half-open turn, snapped when asked, then held to `[v_min, v_max]`.
pub fn drag_target(pointer_angle: i32, v_min: i32, v_max: i32, snapping: bool) -> (r: i32)
    requires
        v_min <= v_max,
    ensures
        r as int == drag_value(pointer_angle as int, v_min as int, v_max as int, snapping),
        v_min <= r <= v_max,
{
    let w: i32 = if pointer_angle > HALF_TURN {
        pointer_angle - FULL_TURN
    } else {
        pointer_angle
    };
    let s: i32 = if snapping {
        snap_angle(w)
    } else {
        w
    };
    clamp_angle(s, v_min, v_max)
}

/// One frame of dragging: moves `value` to the drag target when that differs
/// from it by more than `CHANGE_EPSILON`, and says whether it did.
pub fn drag_to(value: &mut i32, v_min: i32, v_max: i32, pointer_angle: i32, snapping: bool) -> (changed: bool)
    requires
        v_min <= v_max,
    ensures
        changed == differs(
            drag_value(pointer_angle as int, v_min as int, v_max as int, snapping),
            *old(value) as int,
        ),
        *final(value) as int == if changed {
            drag_value(pointer_angle as int, v_min as int, v_max as int, snapping)
        } else {
            *old(value) as int
        },
        changed ==> v_min <= *final(value) <= v_max,
        v_min <= *old(value) <= v_max ==> v_min <= *final(value) <= v_max,
{
    let target = drag_target(pointer_angle, v_min, v_max, snapping);
    let diff: i64 = target as i64 - *value as i64;
    if diff > CHANGE_EPSILON as i64 || -diff > CHANGE_EPSILON as i64 {
        *value = target;
        true
    } else {
        false
    }
}

/// The centre field lost focus holding `text`: a number (infinity held to the
/// bounds) is held to `[v_min, v_max]` and stored, and that counts as a change
/// even when the value stays; other text leaves the value alone.
pub fn commit_text(value: &mut i32, v_min: i32, v_max: i32, text: &str) -> (changed: bool)
    requires
        v_min <= v_max,
    ensures
        changed == read_millis(text.spec_bytes()).is_some(),
        changed ==> *final(value) as int == clamped(
            read_millis(text.spec_bytes())->0,
            v_min as int,
            v_max as int,
        ),
        !changed ==> *final(value) == *old(value),
        changed ==> v_min <= *final(value) <= v_max,
        v_min <= *old(value) <= v_max ==> v_min <= *final(value) <= v_max,
{
    match parse_millidegrees(text) {
        Some(v) => {
            *value = if v < v_min as i64 {
                v_min
            } else if v > v_max as i64 {
                v_max
            } else {
                v as i32
            };
            true
        },
        None => false,
    }
}

/// Per-instance drag state of a slider, owned by the host between frames.
#[derive(Clone, Copy, Debug, PartialEq, Eq, Structural)]
pub struct SliderDrag {
    /// A drag that began in the grab zone is under way.
    pub active: bool,
}

impl SliderDrag {
    /// The state of a slider that no drag has touched yet.
    pub fn idle() -> (r: SliderDrag)
        ensures
            !r.active,
    {
        SliderDrag { active: false }
    }
}

/// Whether a drag is under way once a press this frame has been handled: only
/// a press on the widget inside the grab zone starts one.
pub open spec fn drag_active(
    active: bool,
    center: ScreenPoint,
    radius: int,
    input: PointerInput,
    hovered: bool,
) -> bool {
    active || (input.pressed && hovered && grab_zone_contains(input.position, center, radius))
}

/// One frame of pointer handling for a slider of the given radius centred at
/// `center`. `hovered` says whether the pointer is over the widget, and
/// `pointer_angle` is the pointer's angle about the centre (clockwise from the
/// top, in millidegrees). While a drag is under way and the button is held,
/// the value follows the pointer as `drag_to` says, except with the pointer
/// exactly at the centre, where no angle is defined; a release ends the drag.
pub fn slider_pointer(
    value: &mut i32,
    drag: &mut SliderDrag,
    v_min: i32,
    v_max: i32,
    center: ScreenPoint,
    radius: i32,
    input: PointerInput,
    hovered: bool,
    pointer_angle: i32,
    snapping: bool,
) -> (changed: bool)
    requires
        v_min <= v_max,
    ensures
        ({
            let active = drag_active(old(drag).active, center, radius as int, input, hovered);
            let moves = active && input.down && input.position != center;
            &&& final(drag).active == (active && !input.released)
            &&& changed == (moves && differs(
                drag_value(pointer_angle as int, v_min as int, v_max as int, snapping),
                *old(value) as int,
            ))
            &&& *final(value) as int == if changed {
                drag_value(pointer_angle as int, v_min as int, v_max as int, snapping)
            } else {
                *old(value) as int
            }
        }),
        input.position == center ==> !changed && *final(value) == *old(value),
        changed ==> v_min <= *final(value) <= v_max,
        v_min <= *old(value) <= v_max ==> v_min <= *final(value) <= v_max,
{
    if input.pressed && !drag.active && in_grab_zone(input.position, center, radius, hovered) {
        drag.active = true;
    }
    let mut changed = false;
    if drag.active && input.down && input.position != center {
        changed = drag_to(value, v_min, v_max, pointer_angle, snapping);
    }
    if input.released {
        drag.active = false;
    }
    changed
}

} // verus!
