//! Reading typed text as a number of degrees, counted in millidegrees.
use vstd::prelude::*;
use vstd::arithmetic::power::{pow, lemma_pow_increases, lemma_pow_positive};
use vstd::string::StringSliceAdditionalSpecFns;
use crate::angle::clamped;

verus! {

/// Magnitudes are held to this many millidegrees (a billion degrees), which is
/// beyond any bound that a slider can have.
pub const MAGNITUDE_LIMIT: i64 = 1_000_000_000_000;

/// Bound on partial values while reading digits: ten times `MAGNITUDE_LIMIT`.
const PARTIAL_LIMIT: i64 = 10_000_000_000_000;

pub open spec fn is_digit(c: u8) -> bool {
    48 <= c <= 57
}

pub open spec fn all_digits(s: Seq<u8>) -> bool {
    forall|i: int| 0 <= i < s.len() ==> is_digit(#[trigger] s[i])
}

/// The number that a string of decimal digits writes.
pub open spec fn digits_value(s: Seq<u8>) -> int
    decreases s.len(),
{
    if s.len() == 0 {
        0
    } else {
        digits_value(s.drop_last()) * 10 + (s.last() - 48)
    }
}

/// The end of the run of digits in `s` that starts at `i`.
pub open spec fn digit_run(s: Seq<u8>, i: int) -> int
    decreases s.len() - i,
{
    if 0 <= i < s.len() && is_digit(s[i]) {
        digit_run(s, i + 1)
    } else {
        i
    }
}

/// `m · 10^s` rounded to the nearest integer, a tie away from zero (`m >= 0`).
pub open spec fn scaled_millis(m: int, s: int) -> int {
    if s >= 0 {
        m * pow(10, s as nat)
    } else {
        (2 * m + pow(10, (-s) as nat)) / (2 * pow(10, (-s) as nat))
    }
}

/// What follows an exponent marker: an optional sign and at least one digit.
pub open spec fn exponent_value(x: Seq<u8>) -> Option<int> {
    let signed = x.len() > 0 && (x[0] == 45 || x[0] == 43);
    let d = if signed {
        x.skip(1)
    } else {
        x
    };
    if d.len() > 0 && all_digits(d) {
        Some(if signed && x[0] == 45 { -digits_value(d) } else { digits_value(d) })
    } else {
        None
    }
}

/// An unsigned finite number, in millidegrees: digits, optionally a point and
/// more digits (at least one digit in all), then optionally `e` or `E` with an
/// exponent, as in `12`, `3.`, `.25`, `1.5e2`, `4E-1`.
pub open spec fn unsigned_millis(body: Seq<u8>) -> Option<int> {
    let k = digit_run(body, 0);
    let point = k < body.len() && body[k] == 46;
    let fs = if point { k + 1 } else { k };
    let fe = if point { digit_run(body, k + 1) } else { k };
    let ip = body.subrange(0, k);
    let fp = body.subrange(fs, fe);
    let rest = body.skip(fe);
    let e = if rest.len() == 0 {
        Some(0int)
    } else if rest[0] == 101 || rest[0] == 69 {
        exponent_value(rest.skip(1))
    } else {
        None
    };
    if ip.len() + fp.len() == 0 {
        None
    } else {
        match e {
            Some(e) => Some(scaled_millis(digits_value(ip + fp), e + 3 - fp.len())),
            None => None,
        }
    }
}

/// An ASCII letter in lower case; other bytes as they are.
pub open spec fn lower(c: u8) -> u8 {
    if 65 <= c <= 90 {
        (c + 32) as u8
    } else {
        c
    }
}

/// `s` spells `inf` or `infinity`, in any case.
pub open spec fn is_infinity(s: Seq<u8>) -> bool {
    &&& (s.len() == 3 || s.len() == 8)
    &&& lower(s[0]) == 105 && lower(s[1]) == 110 && lower(s[2]) == 102
    &&& s.len() == 8 ==> (lower(s[3]) == 105 && lower(s[4]) == 110 && lower(s[5]) == 105
        && lower(s[6]) == 116 && lower(s[7]) == 121)
}

/// Whether the text opens with a minus sign, and what follows its sign.
pub open spec fn sign_and_body(b: Seq<u8>) -> (bool, Seq<u8>) {
    if b.len() > 0 && (b[0] == 45 || b[0] == 43) {
        (b[0] == 45, b.skip(1))
    } else {
        (false, b)
    }
}

/// What text reads as, in millidegrees held to `MAGNITUDE_LIMIT`: a number
/// with an optional sign (`-` or `+`), where infinity is beyond the limit;
/// `None` for any other text (`nan` included).
pub open spec fn read_millis(b: Seq<u8>) -> Option<int> {
    let (negative, body) = sign_and_body(b);
    let l = MAGNITUDE_LIMIT as int;
    if is_infinity(body) {
        Some(if negative { -l } else { l })
    } else {
        match unsigned_millis(body) {
            Some(m) => Some(if negative { -clamped(m, 0, l) } else { clamped(m, 0, l) }),
            None => None,
        }
    }
}

proof fn lemma_digits_value_nonneg(s: Seq<u8>)
    requires
        all_digits(s),
    ensures
        0 <= digits_value(s) < pow(10, s.len()),
    decreases s.len(),
{
    reveal(pow);
    if s.len() > 0 {
        let d = s.drop_last();
        assert(all_digits(d)) by {
            assert forall|i: int| 0 <= i < d.len() implies is_digit(#[trigger] d[i]) by {
                assert(d[i] == s[i]);
            }
        }
        lemma_digits_value_nonneg(d);
        assert(is_digit(s[s.len() - 1]));
        assert(pow(10, s.len()) == 10 * pow(10, d.len()));
    } else {
        assert(pow(10, 0) == 1);
    }
}

/// The value of a digit string is that of its first `k` digits, shifted, plus
/// that of the rest.
proof fn lemma_digits_split(s: Seq<u8>, k: int)
    requires
        0 <= k <= s.len(),
    ensures
        digits_value(s) == digits_value(s.take(k)) * pow(10, (s.len() - k) as nat) + digits_value(
            s.skip(k),
        ),
    decreases s.len(),
{
    reveal(pow);
    if k == s.len() {
        assert(s.take(k) =~= s);
        assert(s.skip(k).len() == 0);
        assert(pow(10, 0) == 1);
    } else {
        let d = s.drop_last();
        lemma_digits_split(d, k);
        assert(d.take(k) =~= s.take(k));
        assert(s.skip(k).drop_last() =~= d.skip(k));
        assert(s.skip(k).last() == s.last());
        let n = (s.len() - k) as nat;
        assert(pow(10, n) == 10 * pow(10, (n - 1) as nat));
        let a = digits_value(s.take(k));
        let p = pow(10, (n - 1) as nat);
        assert(a * (10 * p) == (a * p) * 10) by (nonlinear_arith);
    }
}

/// The first digit of `u` weighs `10^(len - 1)`.
proof fn lemma_leading_digit(u: Seq<u8>)
    requires
        u.len() > 0,
        all_digits(u),
    ensures
        digits_value(u) == (u[0] - 48) * pow(10, (u.len() - 1) as nat) + digits_value(u.skip(1)),
        0 <= digits_value(u.skip(1)) < pow(10, (u.len() - 1) as nat),
{
    lemma_digits_split(u, 1);
    let t = u.take(1);
    assert(t.drop_last().len() == 0);
    assert(digits_value(t.drop_last()) == 0);
    assert(t.last() == u[0]);
    assert(digits_value(t) == u[0] - 48);
    assert(all_digits(u.skip(1))) by {
        assert forall|i: int| 0 <= i < u.skip(1).len() implies is_digit(#[trigger] u.skip(1)[i]) by {
            assert(u.skip(1)[i] == u[i + 1]);
        }
    }
    lemma_digits_value_nonneg(u.skip(1));
}

proof fn lemma_pow10_values()
    ensures
        pow(10, 13) == 10_000_000_000_000,
        pow(10, 14) == 100_000_000_000_000,
{
    reveal_with_fuel(pow, 15);
}

/// A value of `len` digits scaled far down rounds to zero, scaled far up is
/// beyond the limit unless it is zero, and zero stays zero.
proof fn lemma_scaled_extremes(m: int, len: nat, s: int)
    requires
        0 <= m < pow(10, len),
    ensures
        s <= -(len + 1) ==> scaled_millis(m, s) == 0,
        s >= 14 && m >= 1 ==> scaled_millis(m, s) > MAGNITUDE_LIMIT,
        m == 0 ==> scaled_millis(m, s) == 0,
{
    reveal(pow);
    if s < 0 {
        let t = (-s) as nat;
        let p = pow(10, t);
        let p1 = pow(10, (t - 1) as nat);
        lemma_pow_positive(10, (t - 1) as nat);
        assert(p == 10 * p1);
        if s <= -(len + 1) || m == 0 {
            if m > 0 {
                lemma_pow_increases(10, len, (t - 1) as nat);
            }
            vstd::arithmetic::div_mod::lemma_fundamental_div_mod_converse(2 * m + p, 2 * p, 0, 2 * m + p);
        }
    } else {
        if s >= 14 && m >= 1 {
            lemma_pow10_values();
            lemma_pow_increases(10, 14, s as nat);
            let p = pow(10, s as nat);
            assert(m * p >= p) by (nonlinear_arith)
                requires
                    m >= 1,
                    p >= 0,
            ;
        }
    }
}

/// Rounding `m = q·10^t + u` down by `10^t` gives `q`, plus one when the first
/// of the `t` digits of `u` is at least five.
proof fn lemma_round_down(q: int, u: Seq<u8>)
    requires
        u.len() > 0,
        all_digits(u),
        q >= 0,
    ensures
        scaled_millis(q * pow(10, u.len()) + digits_value(u), -(u.len() as int)) == q + if u[0]
            >= 53 {
            1int
        } else {
            0int
        },
{
    reveal(pow);
    let t = u.len();
    let p = pow(10, t);
    let p1 = pow(10, (t - 1) as nat);
    assert(p == 10 * p1);
    lemma_pow_positive(10, (t - 1) as nat);
    lemma_leading_digit(u);
    let d = u[0] - 48;
    let w = digits_value(u.skip(1));
    let x = 2 * (q * p + digits_value(u)) + p;
    assert(is_digit(u[0]));
    if u[0] >= 53 {
        assert(x == (q + 1) * (2 * p) + ((2 * d - 10) * p1 + 2 * w)) by (nonlinear_arith)
            requires
                x == 2 * (q * p + digits_value(u)) + p,
                digits_value(u) == d * p1 + w,
                p == 10 * p1,
        ;
        assert(0 <= (2 * d - 10) * p1 + 2 * w < 2 * p) by (nonlinear_arith)
            requires
                5 <= d <= 9,
                0 <= w < p1,
                p == 10 * p1,
        ;
        vstd::arithmetic::div_mod::lemma_fundamental_div_mod_converse(x, 2 * p, q + 1, (2 * d - 10) * p1 + 2 * w);
    } else {
        assert(x == q * (2 * p) + ((2 * d + 10) * p1 + 2 * w)) by (nonlinear_arith)
            requires
                x == 2 * (q * p + digits_value(u)) + p,
                digits_value(u) == d * p1 + w,
                p == 10 * p1,
        ;
        assert(0 <= (2 * d + 10) * p1 + 2 * w < 2 * p) by (nonlinear_arith)
            requires
                0 <= d <= 4,
                0 <= w < p1,
                p == 10 * p1,
        ;
        vstd::arithmetic::div_mod::lemma_fundamental_div_mod_converse(x, 2 * p, q, (2 * d + 10) * p1 + 2 * w);
    }
}

proof fn lemma_digit_run_shift(s: Seq<u8>, start: int, i: int)
    requires
        0 <= start <= s.len(),
        0 <= i <= s.len() - start,
    ensures
        digit_run(s.skip(start), i) + start == digit_run(s, start + i),
    decreases s.len() - start - i,
{
    if i < s.len() - start {
        assert(s.skip(start)[i] == s[start + i]);
        lemma_digit_run_shift(s, start, i + 1);
    }
}

/// The end of the run of digits in `b` that starts at `from`.
fn digit_run_end(b: &[u8], from: usize) -> (k: usize)
    requires
        from <= b@.len(),
    ensures
        k == digit_run(b@, from as int),
        from <= k <= b@.len(),
        all_digits(b@.subrange(from as int, k as int)),
        k < b@.len() ==> !is_digit(b@[k as int]),
{
    let n = b.len();
    let mut k: usize = from;
    while k < n && 48 <= b[k] && b[k] <= 57
        invariant
            from <= k <= n == b@.len(),
            all_digits(b@.subrange(from as int, k as int)),
            digit_run(b@, from as int) == digit_run(b@, k as int),
        decreases n - k,
    {
        proof {
            let prev = b@.subrange(from as int, k as int);
            let next = b@.subrange(from as int, k + 1);
            assert forall|j: int| 0 <= j < next.len() implies is_digit(#[trigger] next[j]) by {
                if j < prev.len() {
                    assert(next[j] == prev[j]);
                }
            }
        }
        k = k + 1;
    }
    k
}

fn lower_byte(c: u8) -> (r: u8)
    ensures
        r == lower(c),
{
    if 65 <= c && c <= 90 {
        c + 32
    } else {
        c
    }
}

/// Whether `b[start..]` spells `inf` or `infinity`, in any case.
fn infinity_at(b: &[u8], start: usize) -> (r: bool)
    requires
        start <= b@.len(),
    ensures
        r == is_infinity(b@.skip(start as int)),
{
    let ghost s = b@.skip(start as int);
    let m = b.len() - start;
    if m != 3 && m != 8 {
        return false;
    }
    proof {
        assert forall|j: int| 0 <= j < m implies s[j] == b@[start + j] by {}
    }
    let head = lower_byte(b[start]) == 105 && lower_byte(b[start + 1]) == 110 && lower_byte(
        b[start + 2],
    ) == 102;
    if m == 3 {
        return head;
    }
    head && lower_byte(b[start + 3]) == 105 && lower_byte(b[start + 4]) == 110 && lower_byte(
        b[start + 5],
    ) == 105 && lower_byte(b[start + 6]) == 116 && lower_byte(b[start + 7]) == 121
}

/// `b[a1..e1]` followed by `b[a2..e2]`.
fn collect(b: &[u8], a1: usize, e1: usize, a2: usize, e2: usize) -> (r: Vec<u8>)
    requires
        a1 <= e1 <= b@.len(),
        a2 <= e2 <= b@.len(),
    ensures
        r@ == b@.subrange(a1 as int, e1 as int) + b@.subrange(a2 as int, e2 as int),
{
    let mut r: Vec<u8> = Vec::new();
    let mut i: usize = a1;
    while i < e1
        invariant
            a1 <= i <= e1 <= b@.len(),
            r@ == b@.subrange(a1 as int, i as int),
        decreases e1 - i,
    {
        r.push(b[i]);
        assert(r@ =~= b@.subrange(a1 as int, i + 1));
        i = i + 1;
    }
    let mut j: usize = a2;
    while j < e2
        invariant
            a2 <= j <= e2 <= b@.len(),
            a1 <= e1 <= b@.len(),
            r@ == b@.subrange(a1 as int, e1 as int) + b@.subrange(a2 as int, j as int),
        decreases e2 - j,
    {
        r.push(b[j]);
        assert(r@ =~= b@.subrange(a1 as int, e1 as int) + b@.subrange(a2 as int, j + 1));
        j = j + 1;
    }
    r
}

/// The value of the first `k` digits of `d`, held to `cap`.
fn capped_value(d: &Vec<u8>, k: usize, cap: i128) -> (r: i128)
    requires
        k <= d@.len(),
        all_digits(d@),
        0 < cap <= 0x1_0000_0000_0000_0000_0000,
    ensures
        r == clamped(digits_value(d@.take(k as int)), 0, cap as int),
        0 <= r <= cap,
{
    let mut acc: i128 = 0;
    let mut i: usize = 0;
    assert(d@.take(0).len() == 0);
    while i < k
        invariant
            i <= k <= d@.len(),
            all_digits(d@),
            0 < cap <= 0x1_0000_0000_0000_0000_0000,
            0 <= digits_value(d@.take(i as int)),
            acc == clamped(digits_value(d@.take(i as int)), 0, cap as int),
        decreases k - i,
    {
        let ghost next = d@.take(i + 1);
        assert(next.drop_last() =~= d@.take(i as int));
        assert(next.last() == d@[i as int]);
        assert(is_digit(d@[i as int]));
        let c: i128 = (d[i] - 48) as i128;
        acc = if acc >= cap {
            cap
        } else {
            let v = acc * 10 + c;
            if v > cap {
                cap
            } else {
                v
            }
        };
        i = i + 1;
    }
    acc
}

/// `10^s` for small `s`.
fn power_of_ten(s: u32) -> (r: i128)
    requires
        s <= 13,
    ensures
        r == pow(10, s as nat),
        1 <= r <= 10_000_000_000_000,
{
    proof {
        lemma_pow10_values();
        reveal(pow);
    }
    let mut r: i128 = 1;
    let mut i: u32 = 0;
    assert(pow(10, 0) == 1);
    while i < s
        invariant
            i <= s <= 13,
            r == pow(10, i as nat),
            pow(10, 13) == 10_000_000_000_000,
        decreases s - i,
    {
        proof {
            lemma_pow_increases(10, (i + 1) as nat, 13);
            lemma_pow_positive(10, i as nat);
            reveal(pow);
            assert(pow(10, (i + 1) as nat) == 10 * pow(10, i as nat));
            assert(r * 10 <= 10_000_000_000_000);
        }
        r = r * 10;
        i = i + 1;
    }
    proof {
        lemma_pow_positive(10, s as nat);
        lemma_pow_increases(10, s as nat, 13);
    }
    r
}

/// `digits · 10^s` rounded to millidegrees and held to `MAGNITUDE_LIMIT`.
fn scaled(d: &Vec<u8>, s: i128) -> (r: i64)
    requires
        all_digits(d@),
        -0x1_0000_0000_0000_0000_0000 <= s <= 0x1_0000_0000_0000_0000_0000,
    ensures
        r as int == clamped(scaled_millis(digits_value(d@), s as int), 0, MAGNITUDE_LIMIT as int),
{
    let n = d.len();
    let ghost m = digits_value(d@);
    proof {
        lemma_digits_value_nonneg(d@);
        lemma_scaled_extremes(m, n as nat, s as int);
        assert(d@.take(n as int) =~= d@);
    }
    if s >= 0 {
        let whole = capped_value(d, n, PARTIAL_LIMIT as i128);
        if s > 13 {
            return if whole == 0 {
                0
            } else {
                MAGNITUDE_LIMIT
            };
        }
        let p = power_of_ten(s as u32);
        proof {
            assert(whole * p <= PARTIAL_LIMIT * 10_000_000_000_000) by (nonlinear_arith)
                requires
                    0 <= whole <= PARTIAL_LIMIT,
                    1 <= p <= 10_000_000_000_000,
            ;
            if whole == PARTIAL_LIMIT {
                assert(m * p >= PARTIAL_LIMIT) by (nonlinear_arith)
                    requires
                        m >= PARTIAL_LIMIT,
                        p >= 1,
                ;
                assert(whole * p >= PARTIAL_LIMIT) by (nonlinear_arith)
                    requires
                        whole == PARTIAL_LIMIT,
                        p >= 1,
                ;
            }
        }
        let v: i128 = whole * p;
        if v > MAGNITUDE_LIMIT as i128 {
            MAGNITUDE_LIMIT
        } else {
            v as i64
        }
    } else {
        let t: i128 = -s;
        if t > n as i128 {
            return 0;
        }
        let k: usize = n - t as usize;
        let ghost u = d@.skip(k as int);
        proof {
            lemma_digits_split(d@, k as int);
            assert(all_digits(u)) by {
                assert forall|i: int| 0 <= i < u.len() implies is_digit(#[trigger] u[i]) by {
                    assert(u[i] == d@[k + i]);
                }
            }
            assert(all_digits(d@.take(k as int))) by {
                assert forall|i: int| 0 <= i < k implies is_digit(#[trigger] d@.take(k as int)[i]) by {
                    assert(d@.take(k as int)[i] == d@[i]);
                }
            }
            lemma_digits_value_nonneg(d@.take(k as int));
            lemma_round_down(digits_value(d@.take(k as int)), u);
            assert(u[0] == d@[k as int]);
        }
        let whole = capped_value(d, k, PARTIAL_LIMIT as i128);
        let up: i128 = if d[k] >= 53 {
            1
        } else {
            0
        };
        let v: i128 = whole + up;
        if v > MAGNITUDE_LIMIT as i128 {
            MAGNITUDE_LIMIT
        } else {
            v as i64
        }
    }
}

/// The exponent after a marker at `b[es - 1]`, held to `[-cap, cap]`;
/// `None` when what follows the marker is no exponent.
fn exponent_part(b: &[u8], es: usize, cap: i128) -> (r: Option<i128>)
    requires
        es <= b@.len(),
        0 < cap <= 0x1_0000_0000_0000_0000_0000,
    ensures
        r.is_some() == exponent_value(b@.skip(es as int)).is_some(),
        r.is_some() ==> r->0 == clamped(exponent_value(b@.skip(es as int))->0, -cap, cap as int),
{
    let n = b.len();
    let ghost x = b@.skip(es as int);
    let signed = es < n && (b[es] == 45 || b[es] == 43);
    let ds: usize = if signed {
        es + 1
    } else {
        es
    };
    let ghost d = if signed { x.skip(1) } else { x };
    assert(d =~= b@.subrange(ds as int, n as int));
    let de = digit_run_end(b, ds);
    if de != n || de == ds {
        proof {
            if de != n {
                assert(d[de - ds] == b@[de as int]);
            }
        }
        return None;
    }
    let digits = collect(b, ds, n, n, n);
    assert(digits@ =~= d);
    assert(d.take(d.len() as int) =~= d);
    let v = capped_value(&digits, digits.len(), cap);
    proof {
        lemma_digits_value_nonneg(d);
    }
    if signed && b[es] == 45 {
        Some(-v)
    } else {
        Some(v)
    }
}

/// Holding the written exponent to `[-cap, cap]`, for a `cap` well beyond the
/// number of digits, changes nothing once the result is held to the limit.
proof fn lemma_exponent_held(m: int, len: nat, written: int, cap: int, f: int)
    requires
        0 <= m < pow(10, len),
        len <= cap - 20,
        0 <= f <= cap - 20,
    ensures
        clamped(scaled_millis(m, written + 3 - f), 0, MAGNITUDE_LIMIT as int) == clamped(
            scaled_millis(m, clamped(written, -cap, cap) + 3 - f),
            0,
            MAGNITUDE_LIMIT as int,
        ),
{
    let held = clamped(written, -cap, cap);
    lemma_scaled_extremes(m, len, written + 3 - f);
    lemma_scaled_extremes(m, len, held + 3 - f);
}

/// The magnitude that `b[start..]` writes, in millidegrees held to
/// `MAGNITUDE_LIMIT`; `None` when it is no unsigned finite number.
fn unsigned_part(b: &[u8], start: usize) -> (r: Option<i64>)
    requires
        start <= b@.len(),
    ensures
        r.is_some() == unsigned_millis(b@.skip(start as int)).is_some(),
        r.is_some() ==> r->0 as int == clamped(
            unsigned_millis(b@.skip(start as int))->0,
            0,
            MAGNITUDE_LIMIT as int,
        ),
{
    let ghost bs = b@;
    let ghost body = bs.skip(start as int);
    let n: usize = b.len();
    let k = digit_run_end(b, start);
    proof {
        lemma_digit_run_shift(bs, start as int, 0);
    }
    let point: bool = k < n && b[k] == 46;
    let fs: usize = if point {
        k + 1
    } else {
        k
    };
    let fe: usize = if point {
        digit_run_end(b, k + 1)
    } else {
        k
    };
    proof {
        if point {
            assert(body[k - start] == b@[k as int]);
            lemma_digit_run_shift(bs, start as int, k - start + 1);
        } else if k < n {
            assert(body[k - start] == b@[k as int]);
        }
        assert(body.subrange(0, k - start) =~= bs.subrange(start as int, k as int));
        assert(body.subrange(fs - start, fe - start) =~= bs.subrange(fs as int, fe as int));
        assert(body.skip(fe - start) =~= bs.skip(fe as int));
    }
    if k == start && fe == fs {
        return None;
    }
    let cap: i128 = n as i128 + 20;
    let e: i128;
    let ghost written: int;
    if fe == n {
        e = 0;
        proof {
            written = 0;
        }
    } else if b[fe] == 101 || b[fe] == 69 {
        proof {
            assert(body.skip(fe - start)[0] == b@[fe as int]);
            assert(body.skip(fe - start).skip(1) =~= bs.skip(fe + 1));
        }
        match exponent_part(b, fe + 1, cap) {
            Some(v) => {
                e = v;
                proof {
                    written = exponent_value(bs.skip(fe + 1))->0;
                }
            },
            None => {
                return None;
            },
        }
    } else {
        proof {
            assert(body.skip(fe - start)[0] == b@[fe as int]);
        }
        return None;
    }
    let digits = collect(b, start, k, fs, fe);
    let f: usize = fe - fs;
    let s: i128 = e + 3 - f as i128;
    proof {
        let ip = bs.subrange(start as int, k as int);
        let fp = bs.subrange(fs as int, fe as int);
        assert forall|i: int| 0 <= i < digits@.len() implies is_digit(#[trigger] digits@[i]) by {
            if i < ip.len() {
                assert(digits@[i] == ip[i]);
            } else {
                assert(digits@[i] == fp[i - ip.len()]);
            }
        }
        lemma_digits_value_nonneg(digits@);
        assert(unsigned_millis(body) == Some(scaled_millis(digits_value(digits@), written + 3 - f)));
        assert(e == clamped(written, -cap, cap as int));
        lemma_exponent_held(digits_value(digits@), digits@.len(), written, cap as int, f as int);
    }
    Some(scaled(&digits, s))
}

/// Reads `text` as a number of degrees, in millidegrees held to
/// `MAGNITUDE_LIMIT`; `None` when `text` is no number.
pub fn parse_millidegrees(text: &str) -> (r: Option<i64>)
    ensures
        r.is_some() == read_millis(text.spec_bytes()).is_some(),
        r.is_some() ==> r->0 as int == read_millis(text.spec_bytes())->0,
{
    let b: &[u8] = text.as_bytes();
    let n: usize = b.len();
    let signed: bool = n > 0 && (b[0] == 45 || b[0] == 43);
    let negative: bool = signed && b[0] == 45;
    let start: usize = if signed {
        1
    } else {
        0
    };
    assert(sign_and_body(b@) == (negative, b@.skip(start as int))) by {
        if !signed {
            assert(b@.skip(0) =~= b@);
        }
    }
    if infinity_at(b, start) {
        return Some(if negative { -MAGNITUDE_LIMIT } else { MAGNITUDE_LIMIT });
    }
    match unsigned_part(b, start) {
        Some(m) => Some(if negative { -m } else { m }),
        None => None,
    }
}

} // verus!
