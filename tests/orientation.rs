use orient_widgets::ball::{
    axis_endpoint, ball_pointer, drag_orientation, orientation_ball, pick_axis, unproject,
    DragState, PICK_RADIUS,
};
use orient_widgets::geom::{PointerInput, ScreenPoint};
use orient_widgets::quat::{axis_vector, normalize, rotate_axis_onto, Axis, Quat, Vec3, ONE};
use orient_widgets::sqrt::{ceil_sqrt, floor_sqrt};

const ONE2: i64 = ONE * ONE;

fn dot(a: Vec3, b: Vec3) -> i128 {
    a.x as i128 * b.x as i128 + a.y as i128 * b.y as i128 + a.z as i128 * b.z as i128
}

fn norm2(q: Quat) -> i128 {
    [q.w, q.x, q.y, q.z].iter().map(|c| *c as i128 * *c as i128).sum()
}

fn assert_unit(q: Quat) {
    let len = (norm2(q) as f64).sqrt() / ONE as f64;
    assert!((len - 1.0).abs() < 1e-4, "length {len}");
}

fn assert_close(v: Vec3, x: i64, y: i64, z: i64) {
    let tol = ONE2 / 1000;
    assert!((v.x - x).abs() <= tol && (v.y - y).abs() <= tol && (v.z - z).abs() <= tol, "{v:?}");
}

fn frame(position: ScreenPoint, pressed: bool, down: bool, released: bool) -> PointerInput {
    PointerInput { position, pressed, down, released }
}

#[test]
fn square_roots_round_both_ways() {
    assert_eq!(floor_sqrt(0), 0);
    assert_eq!(floor_sqrt(15), 3);
    assert_eq!(floor_sqrt(16), 4);
    assert_eq!(floor_sqrt(u128::MAX), u64::MAX);
    assert_eq!(ceil_sqrt(0), 0);
    assert_eq!(ceil_sqrt(15), 4);
    assert_eq!(ceil_sqrt(16), 4);
    assert_eq!(ceil_sqrt(17), 5);
}

#[test]
fn normalize_scales_to_unit_length() {
    assert_eq!(normalize(0, 0, 0, 0), None);
    assert_eq!(normalize(2, 0, 0, 0), Some(Quat::identity()));
    assert_eq!(normalize(ONE, 0, 0, 0), Some(Quat::identity()));
    assert_eq!(normalize(0, 0, -5 * ONE, 0), Some(Quat { w: 0, x: 0, y: -ONE, z: 0 }));
    let q = normalize(1, 2, 3, 4).unwrap();
    assert_unit(q);
    assert!(q.w < q.x && q.x < q.y && q.y < q.z);
    let q = normalize(40_000_000_000, -3, 17_000_000_000, 1).unwrap();
    assert_unit(q);
}

#[test]
fn identity_frame_is_the_canonical_basis() {
    let q = Quat::identity();
    assert_eq!(axis_vector(q, Axis::X), Vec3 { x: ONE2, y: 0, z: 0 });
    assert_eq!(axis_vector(q, Axis::Y), Vec3 { x: 0, y: ONE2, z: 0 });
    assert_eq!(axis_vector(q, Axis::Z), Vec3 { x: 0, y: 0, z: ONE2 });
}

#[test]
fn derived_axes_are_orthogonal() {
    for (w, x, y, z) in [(1, 2, 3, 4), (-7, 0, 5, 1), (100, -300, 250, 999), (3, 3, 3, 3)] {
        let q = normalize(w, x, y, z).unwrap();
        assert_unit(q);
        let (ax, ay, az) = (axis_vector(q, Axis::X), axis_vector(q, Axis::Y), axis_vector(q, Axis::Z));
        assert_eq!(dot(ax, ay), 0);
        assert_eq!(dot(ax, az), 0);
        assert_eq!(dot(ay, az), 0);
        let n2 = norm2(q);
        assert_eq!(dot(ax, ax), n2 * n2);
        assert_eq!(dot(ay, ay), n2 * n2);
        assert_eq!(dot(az, az), n2 * n2);
        // right-handed: X × Y = ‖q‖² Z
        let (x, y) = (ax, ay);
        let c = |a: i64, b: i64, p: i64, q: i64| a as i128 * b as i128 - p as i128 * q as i128;
        assert_eq!(c(x.y, y.z, x.z, y.y), n2 * az.x as i128);
        assert_eq!(c(x.z, y.x, x.x, y.z), n2 * az.y as i128);
        assert_eq!(c(x.x, y.y, x.y, y.x), n2 * az.z as i128);
    }
}

#[test]
fn endpoints_project_onto_the_disk() {
    let q = Quat::identity();
    let c = ScreenPoint::new(200, 200);
    assert_eq!(axis_endpoint(q, Axis::X, c, 50), ScreenPoint::new(250, 200));
    assert_eq!(axis_endpoint(q, Axis::Y, c, 50), ScreenPoint::new(200, 150));
    assert_eq!(axis_endpoint(q, Axis::Z, c, 50), ScreenPoint::new(200, 200));
}

#[test]
fn pick_takes_nearest_endpoint_in_range() {
    let q = Quat::identity();
    let c = ScreenPoint::new(200, 200);
    assert_eq!(pick_axis(q, c, 50, ScreenPoint::new(248, 203)), Some(Axis::X));
    assert_eq!(pick_axis(q, c, 50, ScreenPoint::new(200, 160)), Some(Axis::Y));
    assert_eq!(pick_axis(q, c, 50, ScreenPoint::new(201, 199)), Some(Axis::Z));
    assert_eq!(pick_axis(q, c, 50, ScreenPoint::new(200 + 50 + PICK_RADIUS, 200)), Some(Axis::X));
    assert_eq!(pick_axis(q, c, 50, ScreenPoint::new(200 + 50 + PICK_RADIUS + 1, 200)), None);
    assert_eq!(pick_axis(q, c, 50, ScreenPoint::new(230, 170)), None);
}

#[test]
fn unproject_solves_depth_and_holds_to_rim() {
    let c = ScreenPoint::new(0, 0);
    assert_eq!(unproject(c, 50, ScreenPoint::new(0, 0), false), Vec3 { x: 0, y: 0, z: ONE });
    assert_eq!(unproject(c, 50, ScreenPoint::new(0, 0), true), Vec3 { x: 0, y: 0, z: -ONE });
    assert_eq!(unproject(c, 50, ScreenPoint::new(0, -50), false), Vec3 { x: 0, y: ONE, z: 0 });
    assert_eq!(unproject(c, 50, ScreenPoint::new(300, 0), false), Vec3 { x: ONE, y: 0, z: 0 });
    let v = unproject(c, 50, ScreenPoint::new(30, 40), false);
    assert_eq!((v.x, v.y), (39_321, -52_428));
    let inside = unproject(c, 50, ScreenPoint::new(25, 0), false);
    assert_eq!((inside.x, inside.y), (ONE / 2, 0));
    assert_eq!(inside.z, 56_755);
    let far = unproject(c, 50, ScreenPoint::new(1_000_000, -1_000_000), false);
    assert_eq!(far.z, 0);
    assert!(dot(far, far) <= (ONE as i128) * (ONE as i128));
}

#[test]
fn rotating_onto_own_direction_is_no_change() {
    let q = normalize(1, 2, 3, 4).unwrap();
    let mut r = q;
    let ax = axis_vector(q, Axis::X);
    let target = Vec3 { x: ax.x / ONE, y: ax.y / ONE, z: ax.z / ONE };
    assert!(!drag_orientation(&mut r, Axis::X, target));
    assert_eq!(r, q);
}

#[test]
fn rotate_onto_opposite_direction_turns_half_way() {
    let q = rotate_axis_onto(Quat::identity(), Axis::X, Vec3 { x: -ONE, y: 0, z: 0 });
    assert_eq!(q, Quat { w: 0, x: 0, y: ONE, z: 0 });
    assert_eq!(axis_vector(q, Axis::X), Vec3 { x: -ONE2, y: 0, z: 0 });
    assert_eq!(axis_vector(q, Axis::Y), Vec3 { x: 0, y: ONE2, z: 0 });
    assert_eq!(axis_vector(q, Axis::Z), Vec3 { x: 0, y: 0, z: -ONE2 });
    let r = normalize(1, 2, 3, 4).unwrap();
    let a = axis_vector(r, Axis::Z);
    let back = Vec3 { x: -a.x / ONE, y: -a.y / ONE, z: -a.z / ONE };
    let turned = rotate_axis_onto(r, Axis::Z, back);
    assert_unit(turned);
    let tol = ONE2 / 1000;
    let z = axis_vector(turned, Axis::Z);
    assert!((z.x + a.x).abs() <= tol && (z.y + a.y).abs() <= tol && (z.z + a.z).abs() <= tol, "{z:?}");
}

#[test]
fn drag_x_axis_to_opposite_rim() {
    let c = ScreenPoint::new(100, 100);
    let mut q = Quat::identity();
    let mut state = DragState::idle();
    orientation_ball(&mut q, &mut state, c, 50, frame(ScreenPoint::new(150, 100), true, true, false));
    assert_eq!(state.locked_axis, Some(Axis::X));
    let changed = orientation_ball(&mut q, &mut state, c, 50, frame(ScreenPoint::new(50, 100), false, true, false));
    assert!(changed);
    assert_close(axis_vector(q, Axis::X), -ONE2, 0, 0);
}

#[test]
fn rotate_x_onto_y_turns_about_z() {
    let q = rotate_axis_onto(Quat::identity(), Axis::X, Vec3 { x: 0, y: ONE, z: 0 });
    assert_unit(q);
    assert_close(axis_vector(q, Axis::X), 0, ONE2, 0);
    assert_close(axis_vector(q, Axis::Y), -ONE2, 0, 0);
    assert_close(axis_vector(q, Axis::Z), 0, 0, ONE2);
}

#[test]
fn drag_x_endpoint_to_y_position() {
    let c = ScreenPoint::new(200, 200);
    let mut q = Quat::identity();
    let mut state = DragState::idle();
    // press exactly on the X endpoint: the axis locks, nothing turns
    let changed = orientation_ball(&mut q, &mut state, c, 50, frame(ScreenPoint::new(250, 200), true, true, false));
    assert!(!changed);
    assert_eq!(state.locked_axis, Some(Axis::X));
    assert_eq!(state.initial_distance, 50);
    assert_eq!(q, Quat::identity());
    // drag to where the canonical Y axis is drawn
    let changed = orientation_ball(&mut q, &mut state, c, 50, frame(ScreenPoint::new(200, 150), false, true, false));
    assert!(changed);
    assert_unit(q);
    let (ax, ay, az) = (axis_vector(q, Axis::X), axis_vector(q, Axis::Y), axis_vector(q, Axis::Z));
    assert_close(ax, 0, ONE2, 0);
    assert_close(ay, -ONE2, 0, 0);
    assert_close(az, 0, 0, ONE2);
    assert_eq!(dot(ax, ay), 0);
    assert_eq!(dot(ax, az), 0);
    assert_eq!(dot(ay, az), 0);
    // release
    let changed = orientation_ball(&mut q, &mut state, c, 50, frame(ScreenPoint::new(200, 150), false, false, true));
    assert!(!changed);
    assert_eq!(state.locked_axis, None);
    assert_eq!(state.initial_distance, 50);
}

#[test]
fn press_away_from_endpoints_starts_no_drag() {
    let c = ScreenPoint::new(200, 200);
    let mut state = DragState::idle();
    let r = ball_pointer(&mut state, Quat::identity(), c, 50, frame(ScreenPoint::new(230, 170), true, true, false));
    assert_eq!(r, None);
    assert_eq!(state, DragState::idle());
}

#[test]
fn two_balls_keep_separate_locks() {
    let c1 = ScreenPoint::new(100, 100);
    let c2 = ScreenPoint::new(400, 100);
    let (mut q1, mut q2) = (Quat::identity(), Quat::identity());
    let (mut s1, mut s2) = (DragState::idle(), DragState::idle());
    orientation_ball(&mut q1, &mut s1, c1, 50, frame(ScreenPoint::new(150, 100), true, true, false));
    orientation_ball(&mut q2, &mut s2, c2, 50, frame(ScreenPoint::new(400, 50), true, true, false));
    assert_eq!(s1.locked_axis, Some(Axis::X));
    assert_eq!(s2.locked_axis, Some(Axis::Y));
    orientation_ball(&mut q1, &mut s1, c1, 50, frame(ScreenPoint::new(100, 50), false, true, false));
    assert_eq!(s2.locked_axis, Some(Axis::Y));
    orientation_ball(&mut q2, &mut s2, c2, 50, frame(ScreenPoint::new(400, 50), false, false, true));
    assert_eq!(s1.locked_axis, Some(Axis::X));
    assert_eq!(s2.locked_axis, None);
    assert_close(axis_vector(q1, Axis::X), 0, ONE2, 0);
    assert_eq!(q2, Quat::identity());
    orientation_ball(&mut q1, &mut s1, c1, 50, frame(ScreenPoint::new(100, 50), false, false, true));
    assert_eq!(s1.locked_axis, None);
}

#[test]
fn back_hemisphere_is_kept_while_dragging() {
    // a frame whose X axis points away from the viewer
    let q = rotate_axis_onto(Quat::identity(), Axis::X, Vec3 { x: 0, y: 0, z: -ONE });
    assert!(axis_vector(q, Axis::X).z < 0);
    let c = ScreenPoint::new(0, 0);
    // press on the X endpoint, drawn at the centre
    let mut state = DragState::idle();
    let r = ball_pointer(&mut state, q, c, 50, frame(ScreenPoint::new(0, 0), true, true, false));
    assert_eq!(state.locked_axis, Some(Axis::X));
    assert!(state.back);
    let (axis, target) = r.unwrap();
    assert_eq!(axis, Axis::X);
    assert_eq!(target, Vec3 { x: 0, y: 0, z: -ONE });
    // after a frame on the rim the drag still keeps to the far side
    let r = ball_pointer(&mut state, q, c, 50, frame(ScreenPoint::new(10, 0), false, true, false));
    assert!(r.unwrap().1.z < 0);
    let front = rotate_axis_onto(Quat::identity(), Axis::Z, Vec3 { x: ONE, y: 0, z: 0 });
    assert!(axis_vector(front, Axis::X).z < 0);
    let r = ball_pointer(&mut state, front, c, 50, frame(ScreenPoint::new(10, 0), false, true, false));
    assert!(r.unwrap().1.z < 0);
}

#[test]
fn dragged_axis_lands_on_target() {
    let c = ScreenPoint::new(0, 0);
    let starts = [(1, 0, 0, 0), (1, 2, 3, 4), (-7, 0, 5, 1), (100, -300, 250, 999), (0, 1, 0, 0)];
    for (w, x, y, z) in starts {
        let q = normalize(w, x, y, z).unwrap();
        for axis in [Axis::X, Axis::Y, Axis::Z] {
            for px in (-60..=60).step_by(15) {
                for py in (-60..=60).step_by(15) {
                    for back in [false, true] {
                        let t = unproject(c, 50, ScreenPoint::new(px, py), back);
                        let r = rotate_axis_onto(q, axis, t);
                        assert_unit(r);
                        let a = axis_vector(r, axis);
                        let tl = ((t.x * t.x + t.y * t.y + t.z * t.z) as f64).sqrt();
                        for (got, want) in [(a.x, t.x), (a.y, t.y), (a.z, t.z)] {
                            let err = (got as f64 / ONE2 as f64 - want as f64 / tl).abs();
                            assert!(err < 1e-3, "{q:?} {axis:?} ({px}, {py}) {back}: {a:?} vs {t:?}");
                        }
                    }
                }
            }
        }
    }
}
