//! Orientations as fixed-point quaternions, and the frame of axes that they
//! rotate the canonical basis onto.
use vstd::prelude::*;
use crate::sqrt::{ceil_sqrt, ceil_sqrt_of, floor_sqrt, floor_sqrt_of, is_ceil_sqrt, is_floor_sqrt};

verus! {

/// Fixed-point scale of quaternion components: `ONE` stands for 1.0.
pub const ONE: i64 = 65536;

/// Largest component magnitude that `normalize` takes.
pub const COMPONENT_LIMIT: i64 = 0x4000_0000_0000_0000;

/// A quaternion `w + xi + yj + zk` with components scaled by `ONE`.
#[derive(Clone, Copy, Debug, PartialEq, Eq, Structural)]
pub struct Quat {
    pub w: i64,
    pub x: i64,
    pub y: i64,
    pub z: i64,
}

pub open spec fn norm2(w: int, x: int, y: int, z: int) -> int {
    w * w + x * x + y * y + z * z
}

/// `a / d` rounded toward zero (`d > 0`).
pub open spec fn trunc_div(a: int, d: int) -> int {
    if a >= 0 {
        a / d
    } else {
        -((-a) / d)
    }
}

pub open spec fn abs(a: int) -> int {
    if a >= 0 {
        a
    } else {
        -a
    }
}

/// Components with a squared norm under `ONE * ONE` are first scaled up by
/// `ONE`, so that rounding costs little.
pub open spec fn lift_factor(w: int, x: int, y: int, z: int) -> int {
    if norm2(w, x, y, z) < ONE * ONE {
        ONE as int
    } else {
        1
    }
}

/// `(w, x, y, z)` scaled to length `ONE`: each component, times the lift
/// factor and `ONE`, divided by the rounded-up norm, rounded toward zero.
pub open spec fn normalized(w: int, x: int, y: int, z: int) -> Quat {
    let f = lift_factor(w, x, y, z);
    let n = ceil_sqrt_of(norm2(w * f, x * f, y * f, z * f));
    Quat {
        w: trunc_div(w * f * ONE, n) as i64,
        x: trunc_div(x * f * ONE, n) as i64,
        y: trunc_div(y * f * ONE, n) as i64,
        z: trunc_div(z * f * ONE, n) as i64,
    }
}

impl Quat {
    pub open spec fn norm2(self) -> int {
        norm2(self.w as int, self.x as int, self.y as int, self.z as int)
    }

    /// A unit quaternion up to fixed-point rounding: its squared norm lies in
    /// `[ONE² - 10·ONE, ONE²]`.
    pub open spec fn wf(self) -> bool {
        ONE * ONE - 10 * ONE <= self.norm2() <= ONE * ONE
    }

    /// The identity rotation.
    pub fn identity() -> (r: Quat)
        ensures
            r == (Quat { w: ONE, x: 0, y: 0, z: 0 }),
            r.wf(),
    {
        Quat { w: ONE, x: 0, y: 0, z: 0 }
    }
}

pub(crate) proof fn lemma_component(c: int, n: int)
    requires
        n > 0,
    ensures
        ({
            let o = trunc_div(c * ONE, n);
            &&& o * o * (n * n) <= c * c * (ONE * ONE)
            &&& o * o * (n * n) >= c * c * (ONE * ONE) - 2 * abs(c) * ONE * n
        }),
{
    let a = abs(c);
    let t = a * ONE;
    let q = t / n;
    let m = t % n;
    assert(t == q * n + m && 0 <= m < n) by {
        vstd::arithmetic::div_mod::lemma_fundamental_div_mod(t, n);
    }
    assert(a >= 0 && t >= 0);
    assert(q >= 0) by {
        vstd::arithmetic::div_mod::lemma_div_pos_is_pos(t, n);
    }
    assert(c * ONE == if c >= 0 { t } else { -t });
    let o = trunc_div(c * ONE, n);
    assert(o == q || o == -q);
    assert(o * o == q * q) by (nonlinear_arith)
        requires
            o == q || o == -q,
    ;
    assert(c * c == a * a) by (nonlinear_arith)
        requires
            a == abs(c),
    ;
    assert(q * q * (n * n) <= t * t) by (nonlinear_arith)
        requires
            t == q * n + m,
            0 <= m,
            q >= 0,
            n > 0,
    ;
    assert(q * q * (n * n) >= t * t - 2 * t * n) by (nonlinear_arith)
        requires
            t == q * n + m,
            0 <= m < n,
            q >= 0,
    ;
    assert(t * t == a * a * (ONE * ONE)) by (nonlinear_arith)
        requires
            t == a * ONE,
    ;
    assert(2 * t * n == 2 * a * ONE * n) by (nonlinear_arith)
        requires
            t == a * ONE,
    ;
}

pub(crate) proof fn lemma_le_ceil_sqrt(c: int, m: int, n: int)
    requires
        c * c <= m,
        is_ceil_sqrt(m, n),
    ensures
        abs(c) <= n,
{
    let a = abs(c);
    assert(a * a == c * c) by (nonlinear_arith)
        requires
            a == abs(c),
    ;
    if a > n {
        assert(a * a > n * n) by (nonlinear_arith)
            requires
                a > n,
                n >= 0,
        ;
    }
}

/// Scaling four components, whose squared norm `m` is at least `ONE²`, by
/// `ONE / n` with `n` the rounded-up square root of `m`, lands within the
/// bounds of `wf`.
proof fn lemma_normalized_bounds(a: int, b: int, c: int, d: int, m: int, n: int)
    requires
        m == norm2(a, b, c, d),
        m >= ONE * ONE,
        is_ceil_sqrt(m, n),
    ensures
        ({
            let s = norm2(
                trunc_div(a * ONE, n),
                trunc_div(b * ONE, n),
                trunc_div(c * ONE, n),
                trunc_div(d * ONE, n),
            );
            ONE * ONE - 10 * ONE <= s <= ONE * ONE
        }),
        n >= ONE,
{
    let q: int = ONE as int;
    assert(n >= q) by {
        if n < q {
            assert(n * n < q * q) by (nonlinear_arith)
                requires
                    0 <= n < q,
            ;
        }
    }
    lemma_component(a, n);
    lemma_component(b, n);
    lemma_component(c, n);
    lemma_component(d, n);
    let oa = trunc_div(a * ONE, n);
    let ob = trunc_div(b * ONE, n);
    let oc = trunc_div(c * ONE, n);
    let od = trunc_div(d * ONE, n);
    let s = norm2(oa, ob, oc, od);
    let nn = n * n;
    let qq = q * q;
    assert(s * nn == oa * oa * nn + ob * ob * nn + oc * oc * nn + od * od * nn) by (nonlinear_arith)
        requires
            s == oa * oa + ob * ob + oc * oc + od * od,
    ;
    assert(m * qq == a * a * qq + b * b * qq + c * c * qq + d * d * qq) by (nonlinear_arith)
        requires
            m == a * a + b * b + c * c + d * d,
    ;
    // upper bound
    assert(s * nn <= m * qq);
    assert(m * qq <= nn * qq) by (nonlinear_arith)
        requires
            m <= nn,
            qq >= 0,
    ;
    assert(s <= qq) by (nonlinear_arith)
        requires
            s * nn <= nn * qq,
            nn > 0,
    ;
    // lower bound
    assert(a * a <= m && b * b <= m && c * c <= m && d * d <= m) by (nonlinear_arith)
        requires
            m == a * a + b * b + c * c + d * d,
    ;
    lemma_le_ceil_sqrt(a, m, n);
    lemma_le_ceil_sqrt(b, m, n);
    lemma_le_ceil_sqrt(c, m, n);
    lemma_le_ceil_sqrt(d, m, n);
    let sa = abs(a) + abs(b) + abs(c) + abs(d);
    assert(2 * abs(a) * q * n + 2 * abs(b) * q * n + 2 * abs(c) * q * n + 2 * abs(d) * q * n
        <= 8 * q * nn) by (nonlinear_arith)
        requires
            abs(a) <= n,
            abs(b) <= n,
            abs(c) <= n,
            abs(d) <= n,
            q > 0,
            nn == n * n,
    ;
    assert(s * nn >= m * qq - 8 * q * nn);
    assert(m * qq >= nn * qq - 2 * n * qq) by (nonlinear_arith)
        requires
            (n - 1) * (n - 1) < m,
            nn == n * n,
            qq >= 0,
    ;
    assert(2 * n * qq <= 2 * q * nn) by (nonlinear_arith)
        requires
            n >= q,
            q > 0,
            nn == n * n,
            qq == q * q,
    ;
    assert(s * nn >= (qq - 10 * q) * nn) by (nonlinear_arith)
        requires
            s * nn >= m * qq - 8 * q * nn,
            m * qq >= nn * qq - 2 * n * qq,
            2 * n * qq <= 2 * q * nn,
    ;
    assert(s >= qq - 10 * q) by (nonlinear_arith)
        requires
            s * nn >= (qq - 10 * q) * nn,
            nn > 0,
    ;
}

proof fn lemma_square_bounds(c: int, lim: int)
    requires
        abs(c) <= lim,
    ensures
        0 <= c * c <= lim * lim,
        c * c == 0 ==> c == 0,
{
    assert(0 <= c * c <= lim * lim) by (nonlinear_arith)
        requires
            abs(c) <= lim,
    ;
    if c != 0 {
        assert(c * c > 0) by (nonlinear_arith)
            requires
                c != 0,
        ;
    }
}

proof fn lemma_lifted_bound(c: int, f: int)
    requires
        (f == ONE && abs(c) <= ONE) || (f == 1 && abs(c) <= COMPONENT_LIMIT),
    ensures
        abs(c * f) <= COMPONENT_LIMIT,
        0 <= (c * f) * (c * f) <= COMPONENT_LIMIT * COMPONENT_LIMIT,
{
    assert(abs(c * f) <= COMPONENT_LIMIT) by (nonlinear_arith)
        requires
            (f == ONE && abs(c) <= ONE) || (f == 1 && abs(c) <= COMPONENT_LIMIT),
    ;
    lemma_square_bounds(c * f, COMPONENT_LIMIT as int);
}

proof fn lemma_scaled_square(c: int, f: int)
    ensures
        (c * f) * (c * f) == c * c * (f * f),
{
    assert((c * f) * (c * f) == c * c * (f * f)) by (nonlinear_arith);
}

/// `a * ONE / n`, rounded toward zero, for `|a| <= n`.
pub(crate) fn scale_component(a: i128, n: i128) -> (r: i64)
    requires
        0 < n,
        abs(a as int) <= n,
        n <= 0x1_0000_0000_0000_0000,
    ensures
        r as int == trunc_div(a * ONE, n as int),
        abs(r as int) <= ONE,
{
    let t: i128 = if a >= 0 { a * ONE as i128 } else { -a * ONE as i128 };
    let o: i128 = t / n;
    proof {
        assert(o <= ONE) by {
            vstd::arithmetic::div_mod::lemma_div_is_ordered(t as int, n * ONE, n as int);
            vstd::arithmetic::div_mod::lemma_div_by_multiple(ONE as int, n as int);
            assert(n * ONE == (ONE as int) * n) by (nonlinear_arith);
        }
        vstd::arithmetic::div_mod::lemma_div_pos_is_pos(t as int, n as int);
        if a < 0 {
            assert(-(a * ONE) == (-a) * ONE) by (nonlinear_arith);
        }
    }
    if a >= 0 {
        o as i64
    } else {
        -(o as i64)
    }
}

/// Scales `(w, x, y, z)` to length `ONE`; `None` when all four are zero.
pub fn normalize(w: i64, x: i64, y: i64, z: i64) -> (r: Option<Quat>)
    requires
        abs(w as int) <= COMPONENT_LIMIT,
        abs(x as int) <= COMPONENT_LIMIT,
        abs(y as int) <= COMPONENT_LIMIT,
        abs(z as int) <= COMPONENT_LIMIT,
    ensures
        r is None <==> (w == 0 && x == 0 && y == 0 && z == 0),
        r is Some ==> r->0.wf() && r->0 == normalized(w as int, x as int, y as int, z as int),
{
    let (w0, x0, y0, z0) = (w as i128, x as i128, y as i128, z as i128);
    proof {
        lemma_square_bounds(w0 as int, COMPONENT_LIMIT as int);
        lemma_square_bounds(x0 as int, COMPONENT_LIMIT as int);
        lemma_square_bounds(y0 as int, COMPONENT_LIMIT as int);
        lemma_square_bounds(z0 as int, COMPONENT_LIMIT as int);
    }
    let m: i128 = w0 * w0 + x0 * x0 + y0 * y0 + z0 * z0;
    if m == 0 {
        assert(w0 * w0 == 0 && x0 * x0 == 0 && y0 * y0 == 0 && z0 * z0 == 0);
        return None;
    }
    let f: i128 = if m < ONE as i128 * ONE as i128 { ONE as i128 } else { 1 };
    proof {
        if f == ONE {
            lemma_le_ceil_sqrt(w0 as int, ONE * ONE, ONE as int);
            lemma_le_ceil_sqrt(x0 as int, ONE * ONE, ONE as int);
            lemma_le_ceil_sqrt(y0 as int, ONE * ONE, ONE as int);
            lemma_le_ceil_sqrt(z0 as int, ONE * ONE, ONE as int);
        }
        lemma_lifted_bound(w0 as int, f as int);
        lemma_lifted_bound(x0 as int, f as int);
        lemma_lifted_bound(y0 as int, f as int);
        lemma_lifted_bound(z0 as int, f as int);
    }
    let (a, b, c, d) = (w0 * f, x0 * f, y0 * f, z0 * f);
    let m2: i128 = a * a + b * b + c * c + d * d;
    proof {
        let ff = f as int;
        lemma_scaled_square(w0 as int, ff);
        lemma_scaled_square(x0 as int, ff);
        lemma_scaled_square(y0 as int, ff);
        lemma_scaled_square(z0 as int, ff);
        assert(m2 == m * (ff * ff)) by (nonlinear_arith)
            requires
                m2 == w0 * w0 * (ff * ff) + x0 * x0 * (ff * ff) + y0 * y0 * (ff * ff) + z0 * z0 * (ff * ff),
                m == w0 * w0 + x0 * x0 + y0 * y0 + z0 * z0,
        ;
        assert(m2 >= ONE * ONE) by (nonlinear_arith)
            requires
                m2 == m * (ff * ff),
                m >= 1,
                ff == ONE || (ff == 1 && m >= ONE * ONE),
        ;
    }
    let n: u128 = ceil_sqrt(m2 as u128);
    proof {
        lemma_normalized_bounds(a as int, b as int, c as int, d as int, m2 as int, n as int);
        lemma_le_ceil_sqrt(a as int, m2 as int, n as int);
        lemma_le_ceil_sqrt(b as int, m2 as int, n as int);
        lemma_le_ceil_sqrt(c as int, m2 as int, n as int);
        lemma_le_ceil_sqrt(d as int, m2 as int, n as int);
    }
    let ni: i128 = n as i128;
    Some(Quat {
        w: scale_component(a, ni),
        x: scale_component(b, ni),
        y: scale_component(c, ni),
        z: scale_component(d, ni),
    })
}

/// Every well-formed quaternion has length within `1e-4` of one:
/// `(1 - 1e-4)·ONE < ‖q‖ ≤ ONE`.
pub proof fn lemma_unit_length(q: Quat)
    requires
        q.wf(),
    ensures
        100_000_000 * q.norm2() > 99_980_001 * (ONE * ONE),
        q.norm2() <= ONE * ONE,
{
}

/// One of the three axes of a frame.
#[derive(Clone, Copy, Debug, PartialEq, Eq, Structural)]
pub enum Axis {
    X,
    Y,
    Z,
}

/// A vector of three fixed-point components.
#[derive(Clone, Copy, Debug, PartialEq, Eq, Structural)]
pub struct Vec3 {
    pub x: i64,
    pub y: i64,
    pub z: i64,
}

impl Vec3 {
    pub open spec fn view(self) -> (int, int, int) {
        (self.x as int, self.y as int, self.z as int)
    }
}

pub open spec fn dot(a: (int, int, int), b: (int, int, int)) -> int {
    a.0 * b.0 + a.1 * b.1 + a.2 * b.2
}

pub open spec fn cross(a: (int, int, int), b: (int, int, int)) -> (int, int, int) {
    (a.1 * b.2 - a.2 * b.1, a.2 * b.0 - a.0 * b.2, a.0 * b.1 - a.1 * b.0)
}

/// The image of a canonical basis vector under the rotation of `q`, scaled by
/// the squared norm of `q` (so by `ONE * ONE` for a unit quaternion).
pub open spec fn frame_axis(q: Quat, a: Axis) -> (int, int, int) {
    let (w, x, y, z) = (q.w as int, q.x as int, q.y as int, q.z as int);
    match a {
        Axis::X => (w * w + x * x - y * y - z * z, 2 * (x * y + w * z), 2 * (x * z - w * y)),
        Axis::Y => (2 * (x * y - w * z), w * w - x * x + y * y - z * z, 2 * (y * z + w * x)),
        Axis::Z => (2 * (x * z + w * y), 2 * (y * z - w * x), w * w - x * x - y * y + z * z),
    }
}

proof fn lemma_xy_orth(w: int, x: int, y: int, z: int)
    ensures
        (w * w + x * x - y * y - z * z) * (2 * (x * y - w * z)) + (2 * (x * y + w * z)) * (w * w - x
            * x + y * y - z * z) + (2 * (x * z - w * y)) * (2 * (y * z + w * x)) == 0,
{
    let (ww, xx, yy, zz) = (w * w, x * x, y * y, z * z);
    let (xy, wz, xz, wy, yz, wx) = (x * y, w * z, x * z, w * y, y * z, w * x);
    let ad = (ww + xx - yy - zz) * (xy - wz);
    assert(ad == ww * xy - ww * wz + xx * xy - xx * wz - yy * xy + yy * wz - zz * xy + zz * wz)
        by (nonlinear_arith)
        requires
            ad == (ww + xx - yy - zz) * (xy - wz),
    ;
    let be = (xy + wz) * (ww - xx + yy - zz);
    assert(be == xy * ww - xy * xx + xy * yy - xy * zz + wz * ww - wz * xx + wz * yy - wz * zz)
        by (nonlinear_arith)
        requires
            be == (xy + wz) * (ww - xx + yy - zz),
    ;
    let cf = (xz - wy) * (yz + wx);
    assert(cf == xz * yz + xz * wx - wy * yz - wy * wx) by (nonlinear_arith)
        requires
            cf == (xz - wy) * (yz + wx),
    ;
    assert(xz * yz == zz * xy && xz * wx == xx * wz && wy * yz == yy * wz && wy * wx == ww * xy)
        by (nonlinear_arith)
        requires
            ww == w * w,
            xx == x * x,
            yy == y * y,
            zz == z * z,
            xy == x * y,
            wz == w * z,
            xz == x * z,
            wy == w * y,
            yz == y * z,
            wx == w * x,
    ;
    assert((w * w + x * x - y * y - z * z) * (2 * (x * y - w * z)) == 2 * ad) by (nonlinear_arith)
        requires
            ad == (ww + xx - yy - zz) * (xy - wz),
            ww == w * w,
            xx == x * x,
            yy == y * y,
            zz == z * z,
            xy == x * y,
            wz == w * z,
    ;
    assert((2 * (x * y + w * z)) * (w * w - x * x + y * y - z * z) == 2 * be) by (nonlinear_arith)
        requires
            be == (xy + wz) * (ww - xx + yy - zz),
            ww == w * w,
            xx == x * x,
            yy == y * y,
            zz == z * z,
            xy == x * y,
            wz == w * z,
    ;
    assert((2 * (x * z - w * y)) * (2 * (y * z + w * x)) == 4 * cf) by (nonlinear_arith)
        requires
            cf == (xz - wy) * (yz + wx),
            xz == x * z,
            wy == w * y,
            yz == y * z,
            wx == w * x,
    ;
}

proof fn lemma_x_length(w: int, x: int, y: int, z: int)
    ensures
        (w * w + x * x - y * y - z * z) * (w * w + x * x - y * y - z * z) + (2 * (x * y + w * z)) * (2
            * (x * y + w * z)) + (2 * (x * z - w * y)) * (2 * (x * z - w * y)) == (w * w + x * x + y
            * y + z * z) * (w * w + x * x + y * y + z * z),
{
    let (ww, xx, yy, zz) = (w * w, x * x, y * y, z * z);
    let (xy, wz, xz, wy) = (x * y, w * z, x * z, w * y);
    assert(xy * xy == xx * yy && wz * wz == ww * zz && xz * xz == xx * zz && wy * wy == ww * yy
        && xy * wz == xz * wy) by (nonlinear_arith)
        requires
            ww == w * w,
            xx == x * x,
            yy == y * y,
            zz == z * z,
            xy == x * y,
            wz == w * z,
            xz == x * z,
            wy == w * y,
    ;
    let a = ww + xx - yy - zz;
    let n = ww + xx + yy + zz;
    assert(a * a == ww * ww + xx * xx + yy * yy + zz * zz + 2 * (ww * xx) - 2 * (ww * yy) - 2 * (ww
        * zz) - 2 * (xx * yy) - 2 * (xx * zz) + 2 * (yy * zz)) by (nonlinear_arith)
        requires
            a == ww + xx - yy - zz,
    ;
    assert(n * n == ww * ww + xx * xx + yy * yy + zz * zz + 2 * (ww * xx) + 2 * (ww * yy) + 2 * (ww
        * zz) + 2 * (xx * yy) + 2 * (xx * zz) + 2 * (yy * zz)) by (nonlinear_arith)
        requires
            n == ww + xx + yy + zz,
    ;
    assert((2 * (xy + wz)) * (2 * (xy + wz)) == 4 * (xy * xy) + 8 * (xy * wz) + 4 * (wz * wz))
        by (nonlinear_arith);
    assert((2 * (xz - wy)) * (2 * (xz - wy)) == 4 * (xz * xz) - 8 * (xz * wy) + 4 * (wy * wy))
        by (nonlinear_arith);
    assert(a * a + (2 * (xy + wz)) * (2 * (xy + wz)) + (2 * (xz - wy)) * (2 * (xz - wy)) == n * n);
}

proof fn lemma_handedness(w: int, x: int, y: int, z: int)
    ensures
        ({
            let ax = (w * w + x * x - y * y - z * z, 2 * (x * y + w * z), 2 * (x * z - w * y));
            let ay = (2 * (x * y - w * z), w * w - x * x + y * y - z * z, 2 * (y * z + w * x));
            let az = (2 * (x * z + w * y), 2 * (y * z - w * x), w * w - x * x - y * y + z * z);
            let n = w * w + x * x + y * y + z * z;
            cross(ax, ay) == (n * az.0, n * az.1, n * az.2)
        }),
{
    let (ww, xx, yy, zz) = (w * w, x * x, y * y, z * z);
    let (xy, wz, xz, wy, yz, wx) = (x * y, w * z, x * z, w * y, y * z, w * x);
    let n = ww + xx + yy + zz;
    assert(xy * yz == xz * yy) by (nonlinear_arith)
        requires
            xy == x * y,
            xz == x * z,
            yy == y * y,
            yz == y * z,
    ;
    assert(xy * wx == wy * xx) by (nonlinear_arith)
        requires
            wx == w * x,
            wy == w * y,
            xx == x * x,
            xy == x * y,
    ;
    assert(wz * yz == wy * zz) by (nonlinear_arith)
        requires
            wy == w * y,
            wz == w * z,
            yz == y * z,
            zz == z * z,
    ;
    assert(wz * wx == xz * ww) by (nonlinear_arith)
        requires
            ww == w * w,
            wx == w * x,
            wz == w * z,
            xz == x * z,
    ;
    assert(xz * xy == xx * yz) by (nonlinear_arith)
        requires
            xx == x * x,
            xy == x * y,
            xz == x * z,
            yz == y * z,
    ;
    assert(xz * wz == zz * wx) by (nonlinear_arith)
        requires
            wx == w * x,
            wz == w * z,
            xz == x * z,
            zz == z * z,
    ;
    assert(wy * xy == yy * wx) by (nonlinear_arith)
        requires
            wx == w * x,
            wy == w * y,
            xy == x * y,
            yy == y * y,
    ;
    assert(wy * wz == ww * yz) by (nonlinear_arith)
        requires
            ww == w * w,
            wy == w * y,
            wz == w * z,
            yz == y * z,
    ;
    assert(xy * xy == xx * yy) by (nonlinear_arith)
        requires
            xx == x * x,
            xy == x * y,
            yy == y * y,
    ;
    assert(wz * wz == ww * zz) by (nonlinear_arith)
        requires
            ww == w * w,
            wz == w * z,
            zz == z * z,
    ;
    // first component
    let p0 = (xy + wz) * (yz + wx);
    assert(p0 == xy * yz + xy * wx + wz * yz + wz * wx) by (nonlinear_arith)
        requires
            p0 == (xy + wz) * (yz + wx),
    ;
    let r0 = (xz - wy) * (ww - xx + yy - zz);
    assert(r0 == xz * ww - xz * xx + xz * yy - xz * zz - wy * ww + wy * xx - wy * yy + wy * zz)
        by (nonlinear_arith)
        requires
            r0 == (xz - wy) * (ww - xx + yy - zz),
    ;
    let s0 = n * (xz + wy);
    assert(s0 == xz * ww + xz * xx + xz * yy + xz * zz + wy * ww + wy * xx + wy * yy + wy * zz)
        by (nonlinear_arith)
        requires
            s0 == n * (xz + wy),
            n == ww + xx + yy + zz,
    ;
    assert(2 * p0 - r0 == s0);
    // second component
    let p1 = (xz - wy) * (xy - wz);
    assert(p1 == xz * xy - xz * wz - wy * xy + wy * wz) by (nonlinear_arith)
        requires
            p1 == (xz - wy) * (xy - wz),
    ;
    let r1 = (ww + xx - yy - zz) * (yz + wx);
    assert(r1 == ww * yz + ww * wx + xx * yz + xx * wx - yy * yz - yy * wx - zz * yz - zz * wx)
        by (nonlinear_arith)
        requires
            r1 == (ww + xx - yy - zz) * (yz + wx),
    ;
    let s1 = n * (yz - wx);
    assert(s1 == ww * yz + xx * yz + yy * yz + zz * yz - ww * wx - xx * wx - yy * wx - zz * wx)
        by (nonlinear_arith)
        requires
            s1 == n * (yz - wx),
            n == ww + xx + yy + zz,
    ;
    assert(2 * p1 - r1 == s1);
    // third component
    let p2 = (ww + xx - yy - zz) * (ww - xx + yy - zz);
    assert(p2 == ww * ww - xx * xx - yy * yy + zz * zz - 2 * (ww * zz) + 2 * (xx * yy))
        by (nonlinear_arith)
        requires
            p2 == (ww + xx - yy - zz) * (ww - xx + yy - zz),
    ;
    let r2 = (xy + wz) * (xy - wz);
    assert(r2 == xy * xy - wz * wz) by (nonlinear_arith)
        requires
            r2 == (xy + wz) * (xy - wz),
    ;
    let s2 = n * (ww - xx - yy + zz);
    assert(s2 == ww * ww - xx * xx - yy * yy + zz * zz + 2 * (ww * zz) - 2 * (xx * yy))
        by (nonlinear_arith)
        requires
            s2 == n * (ww - xx - yy + zz),
            n == ww + xx + yy + zz,
    ;
    assert(p2 - 4 * r2 == s2);
    // back to the products of the statement
    assert((2 * (x * y + w * z)) * (2 * (y * z + w * x)) - (2 * (x * z - w * y)) * (w * w - x * x
        + y * y - z * z) == 4 * p0 - 2 * r0) by (nonlinear_arith)
        requires
            p0 == (xy + wz) * (yz + wx),
            r0 == (xz - wy) * (ww - xx + yy - zz),
            ww == w * w,
            xx == x * x,
            yy == y * y,
            zz == z * z,
            xy == x * y,
            wz == w * z,
            xz == x * z,
            wy == w * y,
            yz == y * z,
            wx == w * x,
    ;
    assert((2 * (x * z - w * y)) * (2 * (x * y - w * z)) - (w * w + x * x - y * y - z * z) * (2 * (y
        * z + w * x)) == 4 * p1 - 2 * r1) by (nonlinear_arith)
        requires
            p1 == (xz - wy) * (xy - wz),
            r1 == (ww + xx - yy - zz) * (yz + wx),
            ww == w * w,
            xx == x * x,
            yy == y * y,
            zz == z * z,
            xy == x * y,
            wz == w * z,
            xz == x * z,
            wy == w * y,
            yz == y * z,
            wx == w * x,
    ;
    assert((w * w + x * x - y * y - z * z) * (w * w - x * x + y * y - z * z) - (2 * (x * y + w * z))
        * (2 * (x * y - w * z)) == p2 - 4 * r2) by (nonlinear_arith)
        requires
            p2 == (ww + xx - yy - zz) * (ww - xx + yy - zz),
            r2 == (xy + wz) * (xy - wz),
            ww == w * w,
            xx == x * x,
            yy == y * y,
            zz == z * z,
            xy == x * y,
            wz == w * z,
    ;
    assert(n * (2 * (x * z + w * y)) == 2 * s0 && n * (2 * (y * z - w * x)) == 2 * s1 && n * (w * w
        - x * x - y * y + z * z) == s2) by (nonlinear_arith)
        requires
            s0 == n * (xz + wy),
            s1 == n * (yz - wx),
            s2 == n * (ww - xx - yy + zz),
            ww == w * w,
            xx == x * x,
            yy == y * y,
            zz == z * z,
            xz == x * z,
            wy == w * y,
            yz == y * z,
            wx == w * x,
    ;
}

/// The three axes that any quaternion derives are pairwise orthogonal, of
/// equal length `‖q‖²`, and right-handed: once divided by `‖q‖²`, a
/// right-handed orthonormal frame.
pub proof fn lemma_frame_orthogonal(q: Quat)
    ensures
        dot(frame_axis(q, Axis::X), frame_axis(q, Axis::Y)) == 0,
        dot(frame_axis(q, Axis::X), frame_axis(q, Axis::Z)) == 0,
        dot(frame_axis(q, Axis::Y), frame_axis(q, Axis::Z)) == 0,
        dot(frame_axis(q, Axis::X), frame_axis(q, Axis::X)) == q.norm2() * q.norm2(),
        dot(frame_axis(q, Axis::Y), frame_axis(q, Axis::Y)) == q.norm2() * q.norm2(),
        dot(frame_axis(q, Axis::Z), frame_axis(q, Axis::Z)) == q.norm2() * q.norm2(),
        cross(frame_axis(q, Axis::X), frame_axis(q, Axis::Y)) == ({
            let z = frame_axis(q, Axis::Z);
            (q.norm2() * z.0, q.norm2() * z.1, q.norm2() * z.2)
        }),
{
    let (w, x, y, z) = (q.w as int, q.x as int, q.y as int, q.z as int);
    lemma_xy_orth(w, x, y, z);
    lemma_xy_orth(w, y, z, x);
    lemma_xy_orth(w, z, x, y);
    let ax = frame_axis(q, Axis::X);
    let az = frame_axis(q, Axis::Z);
    assert(dot(az, ax) == 0);
    assert(dot(ax, az) == dot(az, ax)) by (nonlinear_arith);
    lemma_x_length(w, x, y, z);
    lemma_x_length(w, y, z, x);
    lemma_x_length(w, z, x, y);
    lemma_handedness(w, x, y, z);
}

pub(crate) proof fn lemma_square_nonneg(v: int)
    ensures
        v * v >= 0,
{
    assert(v * v >= 0) by (nonlinear_arith);
}

proof fn lemma_mixed_bound(a: int, b: int, c: int, d: int)
    ensures
        abs(2 * (a * b + c * d)) <= a * a + b * b + c * c + d * d,
        abs(2 * (a * b - c * d)) <= a * a + b * b + c * c + d * d,
{
    lemma_square_nonneg(a - b);
    lemma_square_nonneg(a + b);
    lemma_square_nonneg(c - d);
    lemma_square_nonneg(c + d);
    assert(abs(2 * (a * b + c * d)) <= a * a + b * b + c * c + d * d) by (nonlinear_arith)
        requires
            (a - b) * (a - b) >= 0,
            (a + b) * (a + b) >= 0,
            (c - d) * (c - d) >= 0,
            (c + d) * (c + d) >= 0,
    ;
    assert(abs(2 * (a * b - c * d)) <= a * a + b * b + c * c + d * d) by (nonlinear_arith)
        requires
            (a - b) * (a - b) >= 0,
            (a + b) * (a + b) >= 0,
            (c - d) * (c - d) >= 0,
            (c + d) * (c + d) >= 0,
    ;
}

/// Each component of an axis of `q` is at most `‖q‖²` in magnitude.
pub proof fn lemma_axis_bounds(q: Quat, a: Axis)
    ensures
        abs(frame_axis(q, a).0) <= q.norm2(),
        abs(frame_axis(q, a).1) <= q.norm2(),
        abs(frame_axis(q, a).2) <= q.norm2(),
{
    let (w, x, y, z) = (q.w as int, q.x as int, q.y as int, q.z as int);
    assert(w * w >= 0 && x * x >= 0 && y * y >= 0 && z * z >= 0) by (nonlinear_arith);
    lemma_mixed_bound(x, y, w, z);
    lemma_mixed_bound(x, z, w, y);
    lemma_mixed_bound(y, z, w, x);
    assert(x * y + w * z == x * y + w * z && q.norm2() == x * x + y * y + w * w + z * z);
}

/// The axis `a` of the frame of `q`, scaled by `ONE * ONE`.
pub fn axis_vector(q: Quat, a: Axis) -> (r: Vec3)
    requires
        q.wf(),
    ensures
        r@ == frame_axis(q, a),
        abs(r.x as int) <= ONE * ONE,
        abs(r.y as int) <= ONE * ONE,
        abs(r.z as int) <= ONE * ONE,
{
    proof {
        lemma_axis_bounds(q, a);
        lemma_square_nonneg(q.w as int);
        lemma_square_nonneg(q.x as int);
        lemma_square_nonneg(q.y as int);
        lemma_square_nonneg(q.z as int);
        lemma_le_ceil_sqrt(q.w as int, ONE * ONE, ONE as int);
        lemma_le_ceil_sqrt(q.x as int, ONE * ONE, ONE as int);
        lemma_le_ceil_sqrt(q.y as int, ONE * ONE, ONE as int);
        lemma_le_ceil_sqrt(q.z as int, ONE * ONE, ONE as int);
        lemma_products_bounded(q.w as int, q.x as int, q.y as int, q.z as int);
    }
    let (w, x, y, z) = (q.w, q.x, q.y, q.z);
    match a {
        Axis::X => Vec3 { x: w * w + x * x - y * y - z * z, y: 2 * (x * y + w * z), z: 2 * (x * z - w * y) },
        Axis::Y => Vec3 { x: 2 * (x * y - w * z), y: w * w - x * x + y * y - z * z, z: 2 * (y * z + w * x) },
        Axis::Z => Vec3 { x: 2 * (x * z + w * y), y: 2 * (y * z - w * x), z: w * w - x * x - y * y + z * z },
    }
}

proof fn lemma_products_bounded(w: int, x: int, y: int, z: int)
    requires
        abs(w) <= ONE,
        abs(x) <= ONE,
        abs(y) <= ONE,
        abs(z) <= ONE,
    ensures
        forall|a: int, b: int|
            (a == w || a == x || a == y || a == z) && (b == w || b == x || b == y || b == z)
                ==> abs(#[trigger] (a * b)) <= ONE * ONE,
{
    assert forall|a: int, b: int|
        (a == w || a == x || a == y || a == z) && (b == w || b == x || b == y || b == z)
            implies abs(#[trigger] (a * b)) <= ONE * ONE by {
        assert(abs(a * b) <= ONE * ONE) by (nonlinear_arith)
            requires
                abs(a) <= ONE,
                abs(b) <= ONE,
        ;
    }
}

pub(crate) proof fn lemma_mul_bound(a: int, b: int, ba: int, bb: int)
    requires
        abs(a) <= ba,
        abs(b) <= bb,
    ensures
        abs(a * b) <= ba * bb,
{
    assert(abs(a * b) <= ba * bb) by (nonlinear_arith)
        requires
            abs(a) <= ba,
            abs(b) <= bb,
    ;
}

/// Each component of a well-formed quaternion is at most `ONE` in magnitude.
pub proof fn lemma_wf_components(q: Quat)
    requires
        q.wf(),
    ensures
        abs(q.w as int) <= ONE,
        abs(q.x as int) <= ONE,
        abs(q.y as int) <= ONE,
        abs(q.z as int) <= ONE,
{
    lemma_square_nonneg(q.w as int);
    lemma_square_nonneg(q.x as int);
    lemma_square_nonneg(q.y as int);
    lemma_square_nonneg(q.z as int);
    lemma_le_ceil_sqrt(q.w as int, ONE * ONE, ONE as int);
    lemma_le_ceil_sqrt(q.x as int, ONE * ONE, ONE as int);
    lemma_le_ceil_sqrt(q.y as int, ONE * ONE, ONE as int);
    lemma_le_ceil_sqrt(q.z as int, ONE * ONE, ONE as int);
}

/// The Hamilton product `p · q`: the rotation of `q` followed by that of `p`.
pub open spec fn quat_mul(p: Quat, q: Quat) -> (int, int, int, int) {
    let (pw, px, py, pz) = (p.w as int, p.x as int, p.y as int, p.z as int);
    let (qw, qx, qy, qz) = (q.w as int, q.x as int, q.y as int, q.z as int);
    (
        pw * qw - px * qx - py * qy - pz * qz,
        pw * qx + px * qw + py * qz - pz * qy,
        pw * qy - px * qz + py * qw + pz * qx,
        pw * qz + px * qy - py * qx + pz * qw,
    )
}

/// The quaternion, up to scale, of the shortest rotation that turns the
/// direction of `a` onto that of `b`: `(|a|·|b| + a·b, a × b)`, with both
/// lengths rounded down.
///
/// For an obtuse angle the first component is written in the form
/// `|a × b|² / (|a|·|b| − a·b)`, rounded down, which equals it in exact
/// arithmetic and keeps its precision near opposite directions.
pub open spec fn minimal_rotation(a: (int, int, int), b: (int, int, int)) -> (int, int, int, int) {
    let c = cross(a, b);
    let m = floor_sqrt_of(dot(a, a)) * floor_sqrt_of(dot(b, b));
    if dot(a, b) >= 0 {
        (m + dot(a, b), c.0, c.1, c.2)
    } else {
        (dot(c, c) / (m - dot(a, b)), c.0, c.1, c.2)
    }
}

/// The axis after `a`, cyclically.
pub open spec fn next_axis(a: Axis) -> Axis {
    match a {
        Axis::X => Axis::Y,
        Axis::Y => Axis::Z,
        Axis::Z => Axis::X,
    }
}

/// The quaternion, up to scale, of the turn that brings axis `axis` of `q`
/// onto the direction of `b`: the shortest rotation; for a direction exactly
/// opposite the axis, where no rotation is shortest, the half-turn about the
/// next axis of the frame, which is perpendicular to it.
pub open spec fn turning_quaternion(q: Quat, axis: Axis, b: (int, int, int)) -> (int, int, int, int) {
    let a = frame_axis(q, axis);
    if cross(a, b) == (0int, 0int, 0int) && dot(a, b) < 0 {
        let v = frame_axis(q, next_axis(axis));
        (0, v.0, v.1, v.2)
    } else {
        minimal_rotation(a, b)
    }
}

/// `q` turned so that its axis `axis` points along the direction `b`, by
/// `turning_quaternion`. A turn that is undefined (a zero direction) or that
/// rounds to the identity leaves `q` as it is.
pub open spec fn rotated_onto(q: Quat, axis: Axis, b: (int, int, int)) -> Quat {
    let d = turning_quaternion(q, axis, b);
    if d == (0int, 0int, 0int, 0int) {
        q
    } else {
        let dn = normalized(d.0, d.1, d.2, d.3);
        if dn == (Quat { w: ONE, x: 0, y: 0, z: 0 }) {
            q
        } else {
            let p = quat_mul(dn, q);
            if p == (0int, 0int, 0int, 0int) {
                q
            } else {
                normalized(p.0, p.1, p.2, p.3)
            }
        }
    }
}

/// The Hamilton product of two well-formed quaternions.
fn hamilton_product(p: Quat, q: Quat) -> (r: (i64, i64, i64, i64))
    requires
        p.wf(),
        q.wf(),
    ensures
        (r.0 as int, r.1 as int, r.2 as int, r.3 as int) == quat_mul(p, q),
        abs(r.0 as int) <= 4 * ONE * ONE,
        abs(r.1 as int) <= 4 * ONE * ONE,
        abs(r.2 as int) <= 4 * ONE * ONE,
        abs(r.3 as int) <= 4 * ONE * ONE,
{
    proof {
        lemma_wf_components(p);
        lemma_wf_components(q);
        assert forall|a: int, b: int|
            (a == p.w || a == p.x || a == p.y || a == p.z) && (b == q.w || b == q.x || b == q.y
                || b == q.z) implies abs(#[trigger] (a * b)) <= ONE * ONE by {
            lemma_mul_bound(a, b, ONE as int, ONE as int);
        }
    }
    (
        p.w * q.w - p.x * q.x - p.y * q.y - p.z * q.z,
        p.w * q.x + p.x * q.w + p.y * q.z - p.z * q.y,
        p.w * q.y - p.x * q.z + p.y * q.w + p.z * q.x,
        p.w * q.z + p.x * q.y - p.y * q.x + p.z * q.w,
    )
}

proof fn lemma_sqrt_bound(s: int, r: int, lim: int)
    requires
        0 <= r,
        r * r <= s,
        s <= 3 * lim * lim,
        lim >= 0,
    ensures
        r <= 2 * lim,
{
    if r > 2 * lim {
        assert(r * r > 4 * lim * lim) by (nonlinear_arith)
            requires
                r > 2 * lim,
                lim >= 0,
        ;
        assert(false) by (nonlinear_arith)
            requires
                r * r > 4 * lim * lim,
                r * r <= s,
                s <= 3 * lim * lim,
                lim >= 0,
        ;
    }
}

proof fn lemma_component_below_root(c: int, s: int, l: int)
    requires
        0 <= c * c <= s,
        s < (l + 1) * (l + 1),
        l >= 0,
    ensures
        abs(c) <= l,
{
    if abs(c) > l {
        assert(c * c >= (l + 1) * (l + 1)) by (nonlinear_arith)
            requires
                abs(c) > l,
                l >= 0,
        ;
    }
}

/// For an obtuse angle between `a` and `b`, the first component of
/// `minimal_rotation` is well defined and fits `COMPONENT_LIMIT`.
proof fn lemma_obtuse_quotient(a: (int, int, int), b: (int, int, int), la: int, lb: int)
    requires
        is_floor_sqrt(dot(a, a), la),
        is_floor_sqrt(dot(b, b), lb),
        la <= 2 * ONE * ONE,
        lb <= 2 * ONE,
        dot(a, b) < 0,
    ensures
        la * lb - dot(a, b) > 0,
        0 <= dot(cross(a, b), cross(a, b)) / (la * lb - dot(a, b)) <= COMPONENT_LIMIT,
{
    let (ax, ay, az) = a;
    let (bx, by, bz) = b;
    lemma_square_nonneg(ax);
    lemma_square_nonneg(ay);
    lemma_square_nonneg(az);
    lemma_square_nonneg(bx);
    lemma_square_nonneg(by);
    lemma_square_nonneg(bz);
    assert(dot(a, a) == ax * ax + ay * ay + az * az);
    assert(dot(b, b) == bx * bx + by * by + bz * bz);
    // both are nonzero, so both roots are at least one
    assert(la >= 1) by {
        if la == 0 {
            assert((la + 1) * (la + 1) == 1) by (nonlinear_arith)
                requires
                    la == 0,
            ;
            assert(ax == 0 && ay == 0 && az == 0) by (nonlinear_arith)
                requires
                    ax * ax + ay * ay + az * az < 1,
            ;
        }
    }
    assert(lb >= 1) by {
        if lb == 0 {
            assert((lb + 1) * (lb + 1) == 1) by (nonlinear_arith)
                requires
                    lb == 0,
            ;
            assert(bx == 0 && by == 0 && bz == 0) by (nonlinear_arith)
                requires
                    bx * bx + by * by + bz * bz < 1,
            ;
        }
    }
    lemma_component_below_root(ax, dot(a, a), la);
    lemma_component_below_root(ay, dot(a, a), la);
    lemma_component_below_root(az, dot(a, a), la);
    lemma_component_below_root(bx, dot(b, b), lb);
    lemma_component_below_root(by, dot(b, b), lb);
    lemma_component_below_root(bz, dot(b, b), lb);
    let c = cross(a, b);
    let k = (la + 1) * (lb + 1);
    assert forall|u: int, v: int|
        (u == ax || u == ay || u == az) && (v == bx || v == by || v == bz)
            implies abs(#[trigger] (u * v)) <= k by {
        lemma_mul_bound(u, v, la + 1, lb + 1);
    }
    assert(abs(c.0) <= 2 * k && abs(c.1) <= 2 * k && abs(c.2) <= 2 * k);
    lemma_mul_bound(c.0, c.0, 2 * k, 2 * k);
    lemma_mul_bound(c.1, c.1, 2 * k, 2 * k);
    lemma_mul_bound(c.2, c.2, 2 * k, 2 * k);
    lemma_square_nonneg(c.0);
    lemma_square_nonneg(c.1);
    lemma_square_nonneg(c.2);
    let cc = dot(c, c);
    let d = la * lb - dot(a, b);
    assert(0 <= cc <= 12 * (k * k)) by (nonlinear_arith)
        requires
            cc == c.0 * c.0 + c.1 * c.1 + c.2 * c.2,
            0 <= c.0 * c.0 <= (2 * k) * (2 * k),
            0 <= c.1 * c.1 <= (2 * k) * (2 * k),
            0 <= c.2 * c.2 <= (2 * k) * (2 * k),
    ;
    assert(k <= 4 * (la * lb + 1)) by (nonlinear_arith)
        requires
            k == (la + 1) * (lb + 1),
            la >= 1,
            lb >= 1,
    ;
    assert(d >= la * lb + 1);
    assert(12 * (k * k) <= (48 * k) * d) by (nonlinear_arith)
        requires
            k <= 4 * (la * lb + 1),
            d >= la * lb + 1,
            k >= 0,
    ;
    assert(la * lb >= 1) by (nonlinear_arith)
        requires
            la >= 1,
            lb >= 1,
    ;
    vstd::arithmetic::div_mod::lemma_div_is_ordered(cc, (48 * k) * d, d);
    vstd::arithmetic::div_mod::lemma_div_by_multiple(48 * k, d);
    vstd::arithmetic::div_mod::lemma_div_pos_is_pos(cc, d);
    assert(k <= (2 * ONE * ONE + 1) * (2 * ONE + 1)) by (nonlinear_arith)
        requires
            k == (la + 1) * (lb + 1),
            1 <= la <= 2 * ONE * ONE,
            1 <= lb <= 2 * ONE,
    ;
    assert(cc / d <= 48 * k);
    assert((2 * ONE * ONE + 1) * (2 * ONE + 1) == 1125908496908289) by (nonlinear_arith);
    assert(48 * k <= COMPONENT_LIMIT);
}

/// `minimal_rotation(a, b)` for an axis `a` of a well-formed quaternion and a
/// direction `b` scaled by `ONE`.
fn rotation_quaternion(a: Vec3, b: Vec3) -> (r: (i64, i64, i64, i64))
    requires
        abs(a.x as int) <= ONE * ONE,
        abs(a.y as int) <= ONE * ONE,
        abs(a.z as int) <= ONE * ONE,
        abs(b.x as int) <= ONE,
        abs(b.y as int) <= ONE,
        abs(b.z as int) <= ONE,
    ensures
        (r.0 as int, r.1 as int, r.2 as int, r.3 as int) == minimal_rotation(a@, b@),
        abs(r.0 as int) <= COMPONENT_LIMIT,
        abs(r.1 as int) <= COMPONENT_LIMIT,
        abs(r.2 as int) <= COMPONENT_LIMIT,
        abs(r.3 as int) <= COMPONENT_LIMIT,
{
    let ghost one2 = ONE * ONE;
    let (ax, ay, az) = (a.x as i128, a.y as i128, a.z as i128);
    let (bx, by, bz) = (b.x as i128, b.y as i128, b.z as i128);
    proof {
        lemma_mul_bound(ax as int, ax as int, one2, one2);
        lemma_mul_bound(ay as int, ay as int, one2, one2);
        lemma_mul_bound(az as int, az as int, one2, one2);
        lemma_mul_bound(bx as int, bx as int, ONE as int, ONE as int);
        lemma_mul_bound(by as int, by as int, ONE as int, ONE as int);
        lemma_mul_bound(bz as int, bz as int, ONE as int, ONE as int);
        lemma_square_nonneg(ax as int);
        lemma_square_nonneg(ay as int);
        lemma_square_nonneg(az as int);
        lemma_square_nonneg(bx as int);
        lemma_square_nonneg(by as int);
        lemma_square_nonneg(bz as int);
        assert forall|u: int, v: int|
            (u == ax || u == ay || u == az) && (v == bx || v == by || v == bz)
                implies abs(#[trigger] (u * v)) <= one2 * ONE by {
            lemma_mul_bound(u, v, one2, ONE as int);
        }
    }
    let aa: i128 = ax * ax + ay * ay + az * az;
    let bb: i128 = bx * bx + by * by + bz * bz;
    let la: u64 = floor_sqrt(aa as u128);
    let lb: u64 = floor_sqrt(bb as u128);
    proof {
        lemma_sqrt_bound(aa as int, la as int, one2);
        lemma_sqrt_bound(bb as int, lb as int, ONE as int);
        lemma_mul_bound(la as int, lb as int, 2 * one2, 2 * ONE);
    }
    let ab: i128 = ax * bx + ay * by + az * bz;
    let dx: i128 = ay * bz - az * by;
    let dy: i128 = az * bx - ax * bz;
    let dz: i128 = ax * by - ay * bx;
    let m: i128 = la as i128 * lb as i128;
    if ab >= 0 {
        return ((m + ab) as i64, dx as i64, dy as i64, dz as i64);
    }
    proof {
        lemma_obtuse_quotient(a@, b@, la as int, lb as int);
        lemma_mul_bound(dx as int, dx as int, 2 * one2 * ONE, 2 * one2 * ONE);
        lemma_mul_bound(dy as int, dy as int, 2 * one2 * ONE, 2 * one2 * ONE);
        lemma_mul_bound(dz as int, dz as int, 2 * one2 * ONE, 2 * one2 * ONE);
        lemma_square_nonneg(dx as int);
        lemma_square_nonneg(dy as int);
        lemma_square_nonneg(dz as int);
        assert(dot(a@, b@) == ab);
        assert(cross(a@, b@) == (dx as int, dy as int, dz as int));
    }
    let cc: i128 = dx * dx + dy * dy + dz * dz;
    ((cc / (m - ab)) as i64, dx as i64, dy as i64, dz as i64)
}

/// `a · b` for an axis `a` of a well-formed quaternion and a direction `b`
/// scaled by `ONE`.
fn dot_product(a: Vec3, b: Vec3) -> (r: i128)
    requires
        abs(a.x as int) <= ONE * ONE,
        abs(a.y as int) <= ONE * ONE,
        abs(a.z as int) <= ONE * ONE,
        abs(b.x as int) <= ONE,
        abs(b.y as int) <= ONE,
        abs(b.z as int) <= ONE,
    ensures
        r == dot(a@, b@),
{
    proof {
        lemma_mul_bound(a.x as int, b.x as int, ONE * ONE, ONE as int);
        lemma_mul_bound(a.y as int, b.y as int, ONE * ONE, ONE as int);
        lemma_mul_bound(a.z as int, b.z as int, ONE * ONE, ONE as int);
    }
    a.x as i128 * b.x as i128 + a.y as i128 * b.y as i128 + a.z as i128 * b.z as i128
}

fn next(a: Axis) -> (r: Axis)
    ensures
        r == next_axis(a),
{
    match a {
        Axis::X => Axis::Y,
        Axis::Y => Axis::Z,
        Axis::Z => Axis::X,
    }
}

/// Turns `q` so that its axis `axis` points along `target` (components scaled
/// by `ONE`): by the shortest rotation, or by a half-turn for the exactly
/// opposite direction. The other two axes turn with it, so the frame stays
/// orthogonal.
pub fn rotate_axis_onto(q: Quat, axis: Axis, target: Vec3) -> (r: Quat)
    requires
        q.wf(),
        abs(target.x as int) <= ONE,
        abs(target.y as int) <= ONE,
        abs(target.z as int) <= ONE,
    ensures
        r == rotated_onto(q, axis, target@),
        r.wf(),
{
    let a = axis_vector(q, axis);
    let shortest = rotation_quaternion(a, target);
    let opposite = shortest.1 == 0 && shortest.2 == 0 && shortest.3 == 0 && dot_product(a, target) < 0;
    let d = if opposite {
        let v = axis_vector(q, next(axis));
        (0i64, v.x, v.y, v.z)
    } else {
        shortest
    };
    let dn = match normalize(d.0, d.1, d.2, d.3) {
        Some(dn) => dn,
        None => {
            return q;
        },
    };
    if dn.w == ONE && dn.x == 0 && dn.y == 0 && dn.z == 0 {
        return q;
    }
    let p = hamilton_product(dn, q);
    match normalize(p.0, p.1, p.2, p.3) {
        Some(r) => r,
        None => q,
    }
}

} // verus!
