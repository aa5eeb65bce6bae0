//! Angles in millidegrees: snapping to a fixed increment, wrapping, clamping.
use vstd::prelude::*;

verus! {

/// The snapping increment, 11.25 degrees (a thirty-second of a turn).
pub const SNAP_STEP: i32 = 11250;

/// Half of `SNAP_STEP`: the largest distance from an angle to its snapped value.
pub const HALF_SNAP_STEP: i32 = 5625;

/// 180 degrees.
pub const HALF_TURN: i32 = 180000;

/// 360 degrees.
pub const FULL_TURN: i32 = 360000;

/// The multiple of `SNAP_STEP` nearest to `x`; a tie goes away from zero.
pub open spec fn snapped(x: int) -> int {
    if x >= 0 {
        ((x + HALF_SNAP_STEP) / (SNAP_STEP as int)) * SNAP_STEP
    } else {
        -(((-x + HALF_SNAP_STEP) / (SNAP_STEP as int)) * SNAP_STEP)
    }
}

/// Brings an angle above a half turn down by a full turn; others are kept.
pub open spec fn wrapped(a: int) -> int {
    if a > HALF_TURN {
        a - FULL_TURN
    } else {
        a
    }
}

/// `v` held to the closed interval `[lo, hi]`.
pub open spec fn clamped(v: int, lo: int, hi: int) -> int {
    if v < lo {
        lo
    } else if v > hi {
        hi
    } else {
        v
    }
}

proof fn lemma_snap_nonneg(x: int)
    requires
        x >= 0,
    ensures
        snapped(x) % (SNAP_STEP as int) == 0,
        0 <= snapped(x),
        x - HALF_SNAP_STEP < snapped(x) <= x + HALF_SNAP_STEP,
        snapped(x) == ((x + HALF_SNAP_STEP) / (SNAP_STEP as int)) * SNAP_STEP,
{
    let k = (x + HALF_SNAP_STEP) / (SNAP_STEP as int);
    let m = (x + HALF_SNAP_STEP) % (SNAP_STEP as int);
    assert(x + HALF_SNAP_STEP == k * 11250 + m && 0 <= m < 11250) by {
        vstd::arithmetic::div_mod::lemma_fundamental_div_mod(x + 5625, 11250);
    }
    assert(k >= 0) by {
        vstd::arithmetic::div_mod::lemma_div_pos_is_pos(x + 5625, 11250);
    }
    assert((k * 11250) % 11250 == 0) by {
        vstd::arithmetic::div_mod::lemma_mod_multiples_basic(k, 11250);
    }
}

/// Snapping is idempotent, lands on a multiple of the increment, and moves an
/// angle by at most half an increment.
pub proof fn lemma_snap_idempotent(x: int)
    ensures
        snapped(snapped(x)) == snapped(x),
        snapped(x) % (SNAP_STEP as int) == 0,
        x - HALF_SNAP_STEP <= snapped(x) <= x + HALF_SNAP_STEP,
{
    let a = if x >= 0 { x } else { -x };
    lemma_snap_nonneg(a);
    let s = snapped(a);
    let k = s / 11250;
    assert(s == k * 11250 && k >= 0) by {
        vstd::arithmetic::div_mod::lemma_fundamental_div_mod(s, 11250);
        vstd::arithmetic::div_mod::lemma_div_pos_is_pos(s, 11250);
    }
    assert((k * 11250 + 5625) / 11250 == k) by {
        vstd::arithmetic::div_mod::lemma_div_multiples_vanish_fancy(k, 5625, 11250);
    }
    assert(snapped(s) == s);
    if x < 0 {
        assert(snapped(x) == -s);
        if s > 0 {
            assert(snapped(-s) == -(((s + 5625) / 11250) * 11250));
        }
        assert((-s) % 11250 == 0) by {
            vstd::arithmetic::div_mod::lemma_mod_multiples_basic(-k, 11250);
        }
    }
}

/// Rounds an angle to the nearest multiple of the snapping increment.
pub fn snap_angle(x: i32) -> (r: i32)
    ensures
        r as int == snapped(x as int),
{
    let m: i64 = x as i64;
    let a: i64 = if m >= 0 { m } else { -m };
    proof {
        lemma_snap_nonneg(a as int);
        let k = (a + 5625) / 11250;
        if k >= 190888 {
            assert(k * 11250 >= 190888 * 11250) by (nonlinear_arith)
                requires k >= 190888;
        }
    }
    let k: i64 = (a + HALF_SNAP_STEP as i64) / SNAP_STEP as i64;
    let s: i64 = k * SNAP_STEP as i64;
    if m >= 0 {
        s as i32
    } else {
        (-s) as i32
    }
}

/// `v` held to `[lo, hi]`.
pub fn clamp_angle(v: i32, lo: i32, hi: i32) -> (r: i32)
    requires
        lo <= hi,
    ensures
        r as int == clamped(v as int, lo as int, hi as int),
        lo <= r <= hi,
{
    if v < lo {
        lo
    } else if v > hi {
        hi
    } else {
        v
    }
}

} // verus!
