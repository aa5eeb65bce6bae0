//! The orientation ball: a frame of three axes drawn on a disk, edited by
//! dragging one axis endpoint at a time.
use vstd::prelude::*;
use crate::geom::{dist2, distance_squared, ScreenPoint};
use crate::geom::PointerInput;
use crate::quat::{
    abs, frame_axis, lemma_component, lemma_le_ceil_sqrt, lemma_mul_bound, lemma_square_nonneg,
    axis_vector, dot, scale_component, trunc_div, rotate_axis_onto, rotated_onto, Axis, Quat, Vec3, ONE,
};
use crate::sqrt::{ceil_sqrt, ceil_sqrt_of, floor_sqrt, floor_sqrt_of};

verus! {

/// How close to an axis endpoint, in points, a press must land to grab it.
pub const PICK_RADIUS: i32 = 12;

/// Per-instance drag state, owned by the host between frames.
#[derive(Clone, Copy, Debug, PartialEq, Eq, Structural)]
pub struct DragState {
    /// The axis being dragged; `None` while idle.
    pub locked_axis: Option<Axis>,
    /// Distance in points from the ball's centre to the pointer when the
    /// current (or last) drag began.
    pub initial_distance: i64,
    /// The locked axis pointed away from the viewer when the drag began, so
    /// the drag keeps to the far hemisphere.
    pub back: bool,
}

impl DragState {
    /// The state of a ball that no drag has touched yet.
    pub fn idle() -> (r: DragState)
        ensures
            r.locked_axis is None,
            r.initial_distance == 0,
            !r.back,
    {
        DragState { locked_axis: None, initial_distance: 0, back: false }
    }
}

/// A disk of the given radius around `center` whose bounding square fits the
/// screen coordinates.
pub open spec fn disk_fits(center: ScreenPoint, radius: int) -> bool {
    &&& 0 < radius
    &&& i32::MIN <= center.x - radius
    &&& center.x + radius <= i32::MAX
    &&& i32::MIN <= center.y - radius
    &&& center.y + radius <= i32::MAX
}

/// Where the tip of an axis vector `v` (scaled by `ONE * ONE`) lands on the
/// disk: `(center.x + v.x·radius, center.y − v.y·radius)`, rounded toward the
/// centre.
pub open spec fn projected(center: ScreenPoint, radius: int, v: (int, int, int)) -> (int, int) {
    (
        center.x + trunc_div(v.0 * radius, ONE * ONE),
        center.y - trunc_div(v.1 * radius, ONE * ONE),
    )
}

/// Squared distance from the pointer to the projected endpoint of axis `a`.
pub open spec fn endpoint_dist2(q: Quat, center: ScreenPoint, radius: int, p: ScreenPoint, a: Axis) -> int {
    let e = projected(center, radius, frame_axis(q, a));
    (p.x - e.0) * (p.x - e.0) + (p.y - e.1) * (p.y - e.1)
}

/// The axis whose endpoint is nearest the pointer (the first of equals), if
/// it lies within `PICK_RADIUS`.
pub open spec fn picked_axis(q: Quat, center: ScreenPoint, radius: int, p: ScreenPoint) -> Option<Axis> {
    let dx = endpoint_dist2(q, center, radius, p, Axis::X);
    let dy = endpoint_dist2(q, center, radius, p, Axis::Y);
    let dz = endpoint_dist2(q, center, radius, p, Axis::Z);
    let best = if dx <= dy && dx <= dz {
        Axis::X
    } else if dy <= dz {
        Axis::Y
    } else {
        Axis::Z
    };
    if endpoint_dist2(q, center, radius, p, best) <= PICK_RADIUS * PICK_RADIUS {
        Some(best)
    } else {
        None
    }
}

/// `v * radius / (ONE * ONE)`, rounded toward zero.
fn scale_to_disk(v: i64, radius: i32) -> (r: i64)
    requires
        abs(v as int) <= ONE * ONE,
        0 < radius,
    ensures
        r as int == trunc_div(v * radius, ONE * ONE),
        abs(r as int) <= radius,
{
    let one2: i128 = ONE as i128 * ONE as i128;
    proof {
        lemma_mul_bound(v as int, radius as int, ONE * ONE, radius as int);
        lemma_mul_bound(abs(v as int), radius as int, ONE * ONE, radius as int);
    }
    let t: i128 = if v >= 0 { v as i128 * radius as i128 } else { -(v as i128) * radius as i128 };
    proof {
        assert(t <= one2 * radius);
        vstd::arithmetic::div_mod::lemma_div_is_ordered(t as int, one2 * radius, one2 as int);
        vstd::arithmetic::div_mod::lemma_div_by_multiple(radius as int, one2 as int);
        assert(one2 * radius == (radius as int) * one2) by (nonlinear_arith);
        vstd::arithmetic::div_mod::lemma_div_pos_is_pos(t as int, one2 as int);
        if v < 0 {
            assert(-(v * radius) == (-v) * radius) by (nonlinear_arith);
        }
    }
    let o: i128 = t / one2;
    if v >= 0 {
        o as i64
    } else {
        -(o as i64)
    }
}

/// The point on screen where the tip of axis `a` of `q` is drawn.
pub fn axis_endpoint(q: Quat, a: Axis, center: ScreenPoint, radius: i32) -> (r: ScreenPoint)
    requires
        q.wf(),
        disk_fits(center, radius as int),
    ensures
        (r.x as int, r.y as int) == projected(center, radius as int, frame_axis(q, a)),
{
    let v = axis_vector(q, a);
    let ox = scale_to_disk(v.x, radius);
    let oy = scale_to_disk(v.y, radius);
    ScreenPoint { x: (center.x as i64 + ox) as i32, y: (center.y as i64 - oy) as i32 }
}

/// The axis that a press at `p` grabs, if any.
pub fn pick_axis(q: Quat, center: ScreenPoint, radius: i32, p: ScreenPoint) -> (r: Option<Axis>)
    requires
        q.wf(),
        disk_fits(center, radius as int),
    ensures
        r == picked_axis(q, center, radius as int, p),
{
    let dx = distance_squared(p, axis_endpoint(q, Axis::X, center, radius));
    let dy = distance_squared(p, axis_endpoint(q, Axis::Y, center, radius));
    let dz = distance_squared(p, axis_endpoint(q, Axis::Z, center, radius));
    let (best, d) = if dx <= dy && dx <= dz {
        (Axis::X, dx)
    } else if dy <= dz {
        (Axis::Y, dy)
    } else {
        (Axis::Z, dz)
    };
    let pick: i128 = PICK_RADIUS as i128;
    assert(pick * pick == PICK_RADIUS * PICK_RADIUS) by (nonlinear_arith)
        requires
            pick == PICK_RADIUS,
    ;
    if d <= pick * pick {
        Some(best)
    } else {
        None
    }
}

/// The direction (scaled by `ONE`) on the unit sphere whose tip projects to
/// the pointer. A pointer outside the disk is first brought to its rim; inside
/// it, the depth is solved from `x² + y² + z² = 1` on the near hemisphere, or
/// on the far one when `back` holds.
pub open spec fn unprojected(center: ScreenPoint, radius: int, p: ScreenPoint, back: bool) -> (int, int, int) {
    let dx = p.x - center.x;
    let dy = p.y - center.y;
    let d2 = dist2(p, center);
    if d2 > radius * radius {
        let l = ceil_sqrt_of(d2);
        (trunc_div(dx * ONE, l), trunc_div(-dy * ONE, l), 0)
    } else {
        let x = trunc_div(dx * ONE, radius);
        let y = trunc_div(-dy * ONE, radius);
        let z = floor_sqrt_of(ONE * ONE - x * x - y * y);
        (x, y, if back { -z } else { z })
    }
}

/// Two components scaled by `ONE / n`, where `n² >= dx² + dy²`, have squared
/// length at most `ONE²`.
proof fn lemma_scaled_pair(dx: int, dy: int, n: int)
    requires
        n > 0,
        dx * dx + dy * dy <= n * n,
    ensures
        ({
            let x = trunc_div(dx * ONE, n);
            let y = trunc_div(-dy * ONE, n);
            x * x + y * y <= ONE * ONE
        }),
{
    let x = trunc_div(dx * ONE, n);
    let y = trunc_div(-dy * ONE, n);
    lemma_component(dx, n);
    lemma_component(-dy, n);
    assert((-dy) * (-dy) == dy * dy) by (nonlinear_arith);
    assert(x * x + y * y <= ONE * ONE) by (nonlinear_arith)
        requires
            x * x * (n * n) <= dx * dx * (ONE * ONE),
            y * y * (n * n) <= dy * dy * (ONE * ONE),
            dx * dx + dy * dy <= n * n,
            n > 0,
    ;
}

/// The direction that a drag toward `p` asks for.
pub fn unproject(center: ScreenPoint, radius: i32, p: ScreenPoint, back: bool) -> (r: Vec3)
    requires
        0 < radius,
    ensures
        r@ == unprojected(center, radius as int, p, back),
        abs(r.x as int) <= ONE,
        abs(r.y as int) <= ONE,
        abs(r.z as int) <= ONE,
        dot(r@, r@) <= ONE * ONE,
        dist2(p, center) <= radius * radius ==> dot(r@, r@) > ONE * ONE - 2 * ONE - 1,
{
    let dx: i64 = p.x as i64 - center.x as i64;
    let dy: i64 = p.y as i64 - center.y as i64;
    let d2: i128 = distance_squared(p, center);
    proof {
        lemma_mul_bound(radius as int, radius as int, 0x8000_0000, 0x8000_0000);
        assert((-dy) * (-dy) == dy * dy) by (nonlinear_arith);
    }
    let r2: i128 = radius as i128 * radius as i128;
    proof {
        lemma_square_nonneg(dx as int);
        lemma_square_nonneg(dy as int);
    }
    if d2 > r2 {
        let l: u128 = ceil_sqrt(d2 as u128);
        proof {
            lemma_le_ceil_sqrt(dx as int, d2 as int, l as int);
            lemma_le_ceil_sqrt(-dy as int, d2 as int, l as int);
            lemma_scaled_pair(dx as int, dy as int, l as int);
        }
        let x = scale_component(dx as i128, l as i128);
        let y = scale_component(-dy as i128, l as i128);
        Vec3 { x, y, z: 0 }
    } else {
        proof {
            let rr = radius as int;
            assert((rr - 1) * (rr - 1) < rr * rr) by (nonlinear_arith)
                requires
                    rr >= 1,
            ;
            lemma_le_ceil_sqrt(dx as int, r2 as int, radius as int);
            lemma_le_ceil_sqrt(-dy as int, r2 as int, radius as int);
            lemma_scaled_pair(dx as int, dy as int, radius as int);
        }
        let x = scale_component(dx as i128, radius as i128);
        let y = scale_component(-dy as i128, radius as i128);
        proof {
            lemma_square_nonneg(x as int);
            lemma_square_nonneg(y as int);
        }
        let rest: i128 = ONE as i128 * ONE as i128 - x as i128 * x as i128 - y as i128 * y as i128;
        let z: u64 = floor_sqrt(rest as u128);
        proof {
            if z > ONE {
                assert(z * z > ONE * ONE) by (nonlinear_arith)
                    requires
                        z > ONE,
                ;
            }
        }
        let zz: i64 = if back {
            -(z as i64)
        } else {
            z as i64
        };
        proof {
            assert(zz * zz == z * z) by (nonlinear_arith)
                requires
                    zz == z || zz == -z,
            ;
            assert((z + 1) * (z + 1) == z * z + 2 * z + 1) by (nonlinear_arith);
        }
        Vec3 { x, y, z: zz }
    }
}

/// The drag state once a press this frame has been handled: an idle ball
/// locks the axis that the press grabs, and records how far from the centre
/// the press landed and whether that axis then pointed away from the viewer.
pub open spec fn after_press(s: DragState, q: Quat, center: ScreenPoint, radius: int, input: PointerInput) -> DragState {
    if input.pressed && s.locked_axis is None {
        match picked_axis(q, center, radius, input.position) {
            Some(a) => DragState {
                locked_axis: Some(a),
                initial_distance: floor_sqrt_of(dist2(input.position, center)) as i64,
                back: frame_axis(q, a).2 < 0,
            },
            None => s,
        }
    } else {
        s
    }
}

/// The drag state at the end of the frame: a release unlocks the axis.
pub open spec fn after_frame(s: DragState, q: Quat, center: ScreenPoint, radius: int, input: PointerInput) -> DragState {
    let t = after_press(s, q, center, radius, input);
    if input.released {
        DragState { locked_axis: None, ..t }
    } else {
        t
    }
}

/// While the button is held with an axis locked, the direction the locked
/// axis is asked to take: the pointer unprojected onto the hemisphere where
/// that axis pointed when the drag began (the near one when it lay on the
/// rim).
pub open spec fn drag_request(s: DragState, q: Quat, center: ScreenPoint, radius: int, input: PointerInput) -> Option<(Axis, (int, int, int))> {
    let t = after_press(s, q, center, radius, input);
    if input.down && t.locked_axis is Some {
        let a = t.locked_axis->0;
        Some((a, unprojected(center, radius, input.position, t.back)))
    } else {
        None
    }
}

/// One frame of pointer handling: updates the drag state, and returns the axis
/// being dragged with the direction it is asked to take.
pub fn ball_pointer(
    state: &mut DragState,
    q: Quat,
    center: ScreenPoint,
    radius: i32,
    input: PointerInput,
) -> (r: Option<(Axis, Vec3)>)
    requires
        q.wf(),
        disk_fits(center, radius as int),
    ensures
        *final(state) == after_frame(*old(state), q, center, radius as int, input),
        input.released ==> final(state).locked_axis is None,
        match r {
            Some((a, v)) => drag_request(*old(state), q, center, radius as int, input) == Some((a, v@)),
            None => drag_request(*old(state), q, center, radius as int, input) is None,
        },
        r matches Some((a, v)) ==> abs(v.x as int) <= ONE && abs(v.y as int) <= ONE && abs(v.z as int) <= ONE,
{
    if input.pressed && state.locked_axis.is_none() {
        match pick_axis(q, center, radius, input.position) {
            Some(a) => {
                let d = floor_sqrt(distance_squared(input.position, center) as u128);
                let tip = axis_vector(q, a);
                state.locked_axis = Some(a);
                state.initial_distance = d as i64;
                state.back = tip.z < 0;
            },
            None => {},
        }
    }
    let mut request: Option<(Axis, Vec3)> = None;
    if input.down {
        match state.locked_axis {
            Some(a) => {
                let target = unproject(center, radius, input.position, state.back);
                request = Some((a, target));
            },
            None => {},
        }
    }
    if input.released {
        state.locked_axis = None;
    }
    request
}

/// Turns `q` so that its axis `axis` points along `target`; says whether the
/// orientation changed.
pub fn drag_orientation(q: &mut Quat, axis: Axis, target: Vec3) -> (changed: bool)
    requires
        old(q).wf(),
        abs(target.x as int) <= ONE,
        abs(target.y as int) <= ONE,
        abs(target.z as int) <= ONE,
    ensures
        *final(q) == rotated_onto(*old(q), axis, target@),
        final(q).wf(),
        changed == (*final(q) != *old(q)),
{
    let before = *q;
    let after = rotate_axis_onto(before, axis, target);
    *q = after;
    !(after.w == before.w && after.x == before.x && after.y == before.y && after.z == before.z)
}

/// One frame of the orientation ball without snapping: handles the pointer,
/// turns the frame when an axis is dragged, and says whether the orientation
/// changed. The orientation stays well formed.
pub fn orientation_ball(
    q: &mut Quat,
    state: &mut DragState,
    center: ScreenPoint,
    radius: i32,
    input: PointerInput,
) -> (changed: bool)
    requires
        old(q).wf(),
        disk_fits(center, radius as int),
    ensures
        *final(state) == after_frame(*old(state), *old(q), center, radius as int, input),
        match drag_request(*old(state), *old(q), center, radius as int, input) {
            Some((a, t)) => *final(q) == rotated_onto(*old(q), a, t),
            None => *final(q) == *old(q),
        },
        final(q).wf(),
        changed == (*final(q) != *old(q)),
{
    match ball_pointer(state, *q, center, radius, input) {
        Some((a, target)) => drag_orientation(q, a, target),
        None => false,
    }
}

} // verus!
