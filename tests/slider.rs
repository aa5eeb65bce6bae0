use orient_widgets::angle::{clamp_angle, snap_angle, SNAP_STEP};
use orient_widgets::decimal::{parse_millidegrees, MAGNITUDE_LIMIT};
use orient_widgets::geom::{PointerInput, ScreenPoint};
use orient_widgets::panel::Panel;
use orient_widgets::slider::{commit_text, drag_target, drag_to, in_grab_zone, slider_pointer, SliderDrag};

#[test]
fn drag_to_exact_angle_without_snapping() {
    let mut value: i32 = 0;
    let changed = drag_to(&mut value, -180_000, 180_000, 45_000, false);
    assert!(changed);
    assert_eq!(value, 45_000);
}

#[test]
fn drag_with_snapping_goes_to_nearest_step() {
    let mut value: i32 = 0;
    let changed = drag_to(&mut value, -180_000, 180_000, 50_000, true);
    assert!(changed);
    assert_eq!(value, 45_000);
}

#[test]
fn unparseable_text_leaves_value() {
    let mut value: i32 = 10_000;
    let changed = commit_text(&mut value, -180_000, 180_000, "abc");
    assert!(!changed);
    assert_eq!(value, 10_000);
}

#[test]
fn snapping_rounds_to_multiples() {
    assert_eq!(SNAP_STEP, 11_250);
    assert_eq!(snap_angle(50_000), 45_000);
    assert_eq!(snap_angle(0), 0);
    assert_eq!(snap_angle(5_624), 0);
    assert_eq!(snap_angle(5_625), 11_250);
    assert_eq!(snap_angle(-5_625), -11_250);
    assert_eq!(snap_angle(-5_624), 0);
    assert_eq!(snap_angle(-50_000), -45_000);
    assert_eq!(snap_angle(180_000), 180_000);
    assert_eq!(snap_angle(i32::MAX), 2_147_478_750);
    assert_eq!(snap_angle(i32::MIN), -2_147_478_750);
}

#[test]
fn snapping_twice_equals_snapping_once() {
    for x in [-200_000, -123_456, -5_625, -1, 0, 1, 5_625, 16_874, 16_875, 99_999, 179_999] {
        let once = snap_angle(x);
        assert_eq!(snap_angle(once), once);
        assert_eq!(once % SNAP_STEP, 0);
        assert!((once - x).abs() <= SNAP_STEP / 2);
    }
}

#[test]
fn clamping_holds_to_bounds() {
    assert_eq!(clamp_angle(200_000, -90_000, 90_000), 90_000);
    assert_eq!(clamp_angle(-200_000, -90_000, 90_000), -90_000);
    assert_eq!(clamp_angle(12_000, -90_000, 90_000), 12_000);
}

#[test]
fn drag_wraps_above_half_turn() {
    assert_eq!(drag_target(270_000, -180_000, 180_000, false), -90_000);
    assert_eq!(drag_target(180_000, -180_000, 180_000, false), 180_000);
    assert_eq!(drag_target(180_001, -180_000, 180_000, false), -179_999);
    // no wrap below a negative half turn: clamped instead
    assert_eq!(drag_target(-190_000, -180_000, 180_000, false), -180_000);
}

#[test]
fn drag_clamps_to_narrow_bounds() {
    let mut value: i32 = 0;
    assert!(drag_to(&mut value, -30_000, 30_000, 90_000, false));
    assert_eq!(value, 30_000);
    assert!(drag_to(&mut value, -30_000, 30_000, -170_000, true));
    assert_eq!(value, -30_000);
}

#[test]
fn drag_within_epsilon_is_no_change() {
    let mut value: i32 = 45_000;
    assert!(!drag_to(&mut value, -180_000, 180_000, 45_001, false));
    assert_eq!(value, 45_000);
    assert!(!drag_to(&mut value, -180_000, 180_000, 44_999, false));
    assert_eq!(value, 45_000);
    assert!(drag_to(&mut value, -180_000, 180_000, 45_002, false));
    assert_eq!(value, 45_002);
}

#[test]
fn committed_values_stay_in_bounds() {
    let (lo, hi) = (-45_000, 120_000);
    let mut value: i32 = 0;
    for angle in [-180_000, -44_999, 0, 119_999, 200_000, 269_999] {
        for snapping in [false, true] {
            drag_to(&mut value, lo, hi, angle, snapping);
            assert!(lo <= value && value <= hi);
        }
    }
    for text in ["-1000", "1000", "12.5", "1e9", "-0.0001", "99999999999999999999999"] {
        commit_text(&mut value, lo, hi, text);
        assert!(lo <= value && value <= hi);
    }
}

#[test]
fn text_commits_clamped_number() {
    let mut value: i32 = 10_000;
    assert!(commit_text(&mut value, -180_000, 180_000, "12.5"));
    assert_eq!(value, 12_500);
    assert!(commit_text(&mut value, -180_000, 180_000, "-200"));
    assert_eq!(value, -180_000);
    assert!(commit_text(&mut value, -180_000, 180_000, "-180"));
    assert_eq!(value, -180_000);
    assert!(commit_text(&mut value, -180_000, 180_000, "999999999999999999999"));
    assert_eq!(value, 180_000);
}

#[test]
fn parse_reads_decimal_numbers() {
    assert_eq!(parse_millidegrees("12"), Some(12_000));
    assert_eq!(parse_millidegrees("-0.5"), Some(-500));
    assert_eq!(parse_millidegrees("+3.25"), Some(3_250));
    assert_eq!(parse_millidegrees("3."), Some(3_000));
    assert_eq!(parse_millidegrees(".25"), Some(250));
    assert_eq!(parse_millidegrees("10.00"), Some(10_000));
    assert_eq!(parse_millidegrees("1.2344"), Some(1_234));
    assert_eq!(parse_millidegrees("1.2345"), Some(1_235));
    assert_eq!(parse_millidegrees("-1.2345"), Some(-1_235));
    assert_eq!(parse_millidegrees("0.0005"), Some(1));
    assert_eq!(parse_millidegrees("1234567890123"), Some(MAGNITUDE_LIMIT));
    assert_eq!(parse_millidegrees("-1234567890123"), Some(-MAGNITUDE_LIMIT));
}

#[test]
fn parse_refuses_other_text() {
    for text in [
        "", "-", "+", ".", "-.", "abc", "1.2.3", "1a", " 1", "1 ", "--1", "١", "1e", "e5", "1e+",
        "1e2.5", ".e1", "1ee2", "nan", "NaN", "-nan", "infinit", "infinityy", "in", "+-inf",
    ] {
        assert_eq!(parse_millidegrees(text), None, "{text:?}");
    }
}

#[test]
fn parse_reads_exponents() {
    assert_eq!(parse_millidegrees("1e3"), Some(1_000_000));
    assert_eq!(parse_millidegrees("1e2"), Some(100_000));
    assert_eq!(parse_millidegrees("1.5e2"), Some(150_000));
    assert_eq!(parse_millidegrees("1e+2"), Some(100_000));
    assert_eq!(parse_millidegrees("4E-1"), Some(400));
    assert_eq!(parse_millidegrees("-2.5e-3"), Some(-3));
    assert_eq!(parse_millidegrees("2.4e-3"), Some(2));
    assert_eq!(parse_millidegrees("5e-4"), Some(1));
    assert_eq!(parse_millidegrees("4.9e-4"), Some(0));
    assert_eq!(parse_millidegrees(".5e1"), Some(5_000));
    assert_eq!(parse_millidegrees("3.e0"), Some(3_000));
    assert_eq!(parse_millidegrees("123456789012345678901234567890e-25"), Some(12_345_679));
    assert_eq!(parse_millidegrees("0.000000000000000000000000000001e30"), Some(1_000));
    assert_eq!(parse_millidegrees("1e999999999999999999999"), Some(MAGNITUDE_LIMIT));
    assert_eq!(parse_millidegrees("-1e999999999999999999999"), Some(-MAGNITUDE_LIMIT));
    assert_eq!(parse_millidegrees("0e999999999999999999999"), Some(0));
    assert_eq!(parse_millidegrees("7e-99999999999999999999"), Some(0));
}

#[test]
fn parse_reads_infinity() {
    assert_eq!(parse_millidegrees("inf"), Some(MAGNITUDE_LIMIT));
    assert_eq!(parse_millidegrees("+inf"), Some(MAGNITUDE_LIMIT));
    assert_eq!(parse_millidegrees("INF"), Some(MAGNITUDE_LIMIT));
    assert_eq!(parse_millidegrees("-Infinity"), Some(-MAGNITUDE_LIMIT));
    assert_eq!(parse_millidegrees("infinity"), Some(MAGNITUDE_LIMIT));
}

#[test]
fn text_commits_exponents_and_infinity() {
    let mut value: i32 = 10_000;
    assert!(commit_text(&mut value, -180_000, 180_000, "1e2"));
    assert_eq!(value, 100_000);
    assert!(commit_text(&mut value, -180_000, 180_000, "inf"));
    assert_eq!(value, 180_000);
    assert!(commit_text(&mut value, -180_000, 180_000, "-infinity"));
    assert_eq!(value, -180_000);
    assert!(commit_text(&mut value, -180_000, 180_000, "1e9"));
    assert_eq!(value, 180_000);
    assert!(!commit_text(&mut value, -180_000, 180_000, "NaN"));
    assert_eq!(value, 180_000);
}

fn input(x: i32, y: i32, pressed: bool, down: bool, released: bool) -> PointerInput {
    PointerInput { position: ScreenPoint::new(x, y), pressed, down, released }
}

#[test]
fn only_a_press_in_the_grab_zone_starts_a_drag() {
    let c = ScreenPoint::new(100, 100);
    let mut value: i32 = 10_000;
    let mut drag = SliderDrag::idle();
    // a press too near the centre starts nothing
    assert!(!slider_pointer(&mut value, &mut drag, -180_000, 180_000, c, 40, input(100, 95, true, true, false), true, 0, false));
    assert!(!drag.active);
    assert!(!slider_pointer(&mut value, &mut drag, -180_000, 180_000, c, 40, input(100, 60, false, true, false), true, 0, false));
    assert_eq!(value, 10_000);
    // nor does one beyond the zone, or one off the widget
    assert!(!slider_pointer(&mut value, &mut drag, -180_000, 180_000, c, 40, input(100, 34, true, true, false), true, 0, false));
    assert!(!slider_pointer(&mut value, &mut drag, -180_000, 180_000, c, 40, input(100, 60, true, true, false), false, 0, false));
    assert!(!drag.active);
    // a press on the ring does, and the value follows
    assert!(slider_pointer(&mut value, &mut drag, -180_000, 180_000, c, 40, input(100, 60, true, true, false), true, 0, false));
    assert!(drag.active);
    assert_eq!(value, 0);
    // the drag goes on outside the zone
    assert!(slider_pointer(&mut value, &mut drag, -180_000, 180_000, c, 40, input(300, 100, false, true, false), false, 90_000, false));
    assert_eq!(value, 90_000);
    // release ends it
    assert!(!slider_pointer(&mut value, &mut drag, -180_000, 180_000, c, 40, input(300, 100, false, false, true), false, 90_000, false));
    assert!(!drag.active);
    assert!(!slider_pointer(&mut value, &mut drag, -180_000, 180_000, c, 40, input(100, 140, false, true, false), true, 180_000, false));
    assert_eq!(value, 90_000);
}

#[test]
fn pointer_at_centre_changes_nothing() {
    let c = ScreenPoint::new(100, 100);
    let mut value: i32 = 10_000;
    let mut drag = SliderDrag { active: true };
    assert!(!slider_pointer(&mut value, &mut drag, -180_000, 180_000, c, 40, input(100, 100, false, true, false), true, 90_000, true));
    assert_eq!(value, 10_000);
    assert!(drag.active);
}

#[test]
fn grab_zone_is_an_annulus() {
    let c = ScreenPoint::new(100, 100);
    assert!(!in_grab_zone(ScreenPoint::new(100, 100), c, 40, true));
    assert!(!in_grab_zone(ScreenPoint::new(114, 100), c, 40, true));
    assert!(in_grab_zone(ScreenPoint::new(115, 100), c, 40, true));
    assert!(in_grab_zone(ScreenPoint::new(100, 165), c, 40, true));
    assert!(!in_grab_zone(ScreenPoint::new(100, 166), c, 40, true));
    assert!(!in_grab_zone(ScreenPoint::new(130, 100), c, 40, false));
}

#[test]
fn placeholder_panels_and_titles() {
    assert!(Panel::LeftPanel.is_placeholder());
    assert!(Panel::RightPanel.is_placeholder());
    assert!(Panel::BottomPanel.is_placeholder());
    assert!(!Panel::Viewport.is_placeholder());
    assert!(!Panel::QuaternionBall.is_placeholder());
    assert_eq!(Panel::CircleSliders.title(), "Parent Split Angle");
    assert_eq!(Panel::QuaternionBall.title(), "Child Settings");
    assert_eq!(Panel::NameTypeEditor.title(), "Genome Editor");
    assert_eq!(Panel::LeftPanel.title(), "Left Panel");
}
