//! Where a split places a child: the parent's direction turned by a drift
//! angle, scaled to the limb length.
use crate::geometry::{div_floor, div_round, round_div, Point, COORD_LIMIT};
use crate::tree_node::{ANGLE_UNIT, MAX_LIMB};
use vstd::arithmetic::div_mod::lemma_div_is_ordered;
use vstd::prelude::*;

verus! {

/// `a * b`, rescaled by one `ANGLE_UNIT` and rounded down.
pub open spec fn scaled_product(a: int, b: int) -> int {
    (a * b) / (ANGLE_UNIT as int)
}

/// Cosine of `a` (in steps of `1 / ANGLE_UNIT` radian) by its Taylor
/// polynomial of degree four, in the same steps.
pub open spec fn cos_approx(a: int) -> int {
    let a2 = scaled_product(a, a);
    let a3 = scaled_product(a2, a);
    let a4 = scaled_product(a3, a);
    ANGLE_UNIT - a2 / 2 + a4 / 24
}

/// Sine of `a` by its Taylor polynomial of degree five.
pub open spec fn sin_approx(a: int) -> int {
    let a2 = scaled_product(a, a);
    let a3 = scaled_product(a2, a);
    let a4 = scaled_product(a3, a);
    let a5 = scaled_product(a4, a);
    a - a3 / 6 + a5 / 120
}

/// The cosine of a drift of at most one radian is at least a half.
pub proof fn lemma_cos_positive(a: int)
    requires
        -ANGLE_UNIT <= a <= ANGLE_UNIT,
    ensures
        cos_approx(a) >= ANGLE_UNIT / 2,
{
    let u = ANGLE_UNIT as int;
    let a2 = scaled_product(a, a);
    let a3 = scaled_product(a2, a);
    let a4 = scaled_product(a3, a);
    assert(0 <= a * a <= u * u) by (nonlinear_arith)
        requires
            -u <= a <= u,
    ;
    lemma_div_is_ordered(0, a * a, u);
    lemma_div_is_ordered(a * a, u * u, u);
    vstd::arithmetic::div_mod::lemma_div_multiples_vanish(u, u);
    assert(0 <= a2 <= u);
    if a >= 0 {
        assert(0 <= a2 * a) by (nonlinear_arith)
            requires
                0 <= a2,
                0 <= a,
        ;
        lemma_div_is_ordered(0, a2 * a, u);
        assert(0 <= a3 * a) by (nonlinear_arith)
            requires
                0 <= a3,
                0 <= a,
        ;
    } else {
        assert(a2 * a <= 0) by (nonlinear_arith)
            requires
                0 <= a2,
                a < 0,
        ;
        lemma_div_is_ordered(a2 * a, 0, u);
        assert(0 <= a3 * a) by (nonlinear_arith)
            requires
                a3 <= 0,
                a < 0,
        ;
    }
    lemma_div_is_ordered(0, a3 * a, u);
    assert(0 <= a4);
}

/// Turning a vector keeps its length, up to the scale `c^2 + s^2`.
proof fn lemma_rotation_norm(x: int, y: int, c: int, s: int)
    ensures
        (x * c - y * s) * (x * c - y * s) + (x * s + y * c) * (x * s + y * c) == (x * x + y * y) * (
        c * c + s * s),
{
    assert((x * c - y * s) * (x * c - y * s) == x * c * (x * c) - 2 * (x * c * (y * s)) + y * s * (
    y * s)) by (nonlinear_arith);
    assert((x * s + y * c) * (x * s + y * c) == x * s * (x * s) + 2 * (x * s * (y * c)) + y * c * (
    y * c)) by (nonlinear_arith);
    assert(x * c * (y * s) == x * s * (y * c)) by (nonlinear_arith);
    assert((x * x + y * y) * (c * c + s * s) == x * x * (c * c) + x * x * (s * s) + y * y * (c * c)
        + y * y * (s * s)) by (nonlinear_arith);
    assert(x * c * (x * c) == x * x * (c * c) && y * s * (y * s) == y * y * (s * s) && x * s * (x
        * s) == x * x * (s * s) && y * c * (y * c) == y * y * (c * c)) by (nonlinear_arith);
}

/// `r` is the integer square root of `n`.
pub open spec fn is_isqrt(n: int, r: int) -> bool {
    0 <= r && r * r <= n < (r + 1) * (r + 1)
}

/// The integer square root of a non-negative `n`.
pub open spec fn isqrt(n: int) -> int {
    choose|r: int| is_isqrt(n, r)
}

proof fn lemma_isqrt_unique(n: int, r: int, s: int)
    requires
        is_isqrt(n, r),
        is_isqrt(n, s),
    ensures
        r == s,
{
    if r < s {
        assert((r + 1) * (r + 1) <= s * s) by (nonlinear_arith)
            requires
                0 <= r + 1 <= s,
        ;
    } else if s < r {
        assert((s + 1) * (s + 1) <= r * r) by (nonlinear_arith)
            requires
                0 <= s + 1 <= r,
        ;
    }
}

/// `c` clamped to `[-COORD_LIMIT, COORD_LIMIT]`.
pub open spec fn clamp_coord(c: int) -> int {
    if c < -COORD_LIMIT {
        -COORD_LIMIT as int
    } else if c > COORD_LIMIT {
        COORD_LIMIT as int
    } else {
        c
    }
}

/// The direction of the segment `start`-`end`; a segment of length zero
/// points along the x axis, at angle zero.
pub open spec fn direction(start: Point, end: Point) -> (int, int) {
    if start == end {
        (1, 0)
    } else {
        (end.x - start.x, end.y - start.y)
    }
}

/// The end of a child of the segment `start`-`end`: it starts at `end`,
/// heads along the segment's direction turned by `drift`, and is `limb` long
/// (up to rounding), each coordinate clamped to the coordinate range.
pub open spec fn candidate_end(start: Point, end: Point, limb: int, drift: int) -> Point {
    let dx = direction(start, end).0;
    let dy = direction(start, end).1;
    let c = cos_approx(drift);
    let s = sin_approx(drift);
    let rx = dx * c - dy * s;
    let ry = dx * s + dy * c;
    let l = isqrt(rx * rx + ry * ry);
    Point {
        x: clamp_coord(end.x + round_div(rx * limb, l)) as i64,
        y: clamp_coord(end.y + round_div(ry * limb, l)) as i64,
    }
}

/// `a * b / ANGLE_UNIT` rounded down, for factors of at most one radian.
fn scale_mul(a: i64, b: i64) -> (r: i64)
    requires
        -ANGLE_UNIT <= a <= ANGLE_UNIT,
        -ANGLE_UNIT <= b <= ANGLE_UNIT,
    ensures
        r == scaled_product(a as int, b as int),
        -ANGLE_UNIT <= r <= ANGLE_UNIT,
{
    proof {
        assert(-10_000_000_000 <= a * b <= 10_000_000_000) by (nonlinear_arith)
            requires
                -100_000 <= a <= 100_000,
                -100_000 <= b <= 100_000,
        ;
        lemma_div_is_ordered(-10_000_000_000, a * b, 100_000);
        lemma_div_is_ordered(a * b, 10_000_000_000, 100_000);
    }
    div_floor(a * b, ANGLE_UNIT)
}

/// Cosine and sine of a drift of at most one radian either way.
pub fn cos_sin(a: i64) -> (r: (i64, i64))
    requires
        -ANGLE_UNIT <= a <= ANGLE_UNIT,
    ensures
        r.0 == cos_approx(a as int),
        r.1 == sin_approx(a as int),
        -2 * ANGLE_UNIT <= r.0 <= 2 * ANGLE_UNIT,
        -2 * ANGLE_UNIT <= r.1 <= 2 * ANGLE_UNIT,
{
    let a2 = scale_mul(a, a);
    let a3 = scale_mul(a2, a);
    let a4 = scale_mul(a3, a);
    let a5 = scale_mul(a4, a);
    let c = ANGLE_UNIT - div_floor(a2, 2) + div_floor(a4, 24);
    let s = a - div_floor(a3, 6) + div_floor(a5, 120);
    (c, s)
}

/// The integer square root, by bisection.
pub fn integer_sqrt(n: u128) -> (r: u64)
    ensures
        is_isqrt(n as int, r as int),
        r == isqrt(n as int),
{
    let mut lo: u128 = 0;
    let mut hi: u128 = 0x1_0000_0000_0000_0000;
    while hi - lo > 1
        invariant
            lo < hi <= 0x1_0000_0000_0000_0000,
            lo * lo <= n,
            n < hi * hi,
        decreases hi - lo,
    {
        let mid = lo + (hi - lo) / 2;
        proof {
            assert(mid * mid < 0x1_0000_0000_0000_0000 * 0x1_0000_0000_0000_0000) by (
            nonlinear_arith)
                requires
                    mid < 0x1_0000_0000_0000_0000,
            ;
        }
        if mid * mid <= n {
            lo = mid;
        } else {
            hi = mid;
        }
    }
    proof {
        assert(hi == lo + 1);
        lemma_isqrt_unique(n as int, lo as int, isqrt(n as int));
    }
    lo as u64
}

fn clamp(c: i64) -> (r: i64)
    ensures
        r == clamp_coord(c as int),
{
    if c < -COORD_LIMIT {
        -COORD_LIMIT
    } else if c > COORD_LIMIT {
        COORD_LIMIT
    } else {
        c
    }
}

/// Computes `candidate_end(start, end, limb, drift)`.
pub fn child_end(start: Point, end: Point, limb: i64, drift: i64) -> (r: Point)
    requires
        start.in_range(),
        end.in_range(),
        0 <= limb <= MAX_LIMB,
        -ANGLE_UNIT <= drift <= ANGLE_UNIT,
    ensures
        r == candidate_end(start, end, limb as int, drift as int),
        r.in_range(),
{
    let (dx, dy) = if start.x == end.x && start.y == end.y {
        (1i64, 0i64)
    } else {
        (end.x - start.x, end.y - start.y)
    };
    let (c, s) = cos_sin(drift);
    proof {
        crate::geometry::lemma_mul_bound(dx as int, c as int, 400_000, 200_000);
        crate::geometry::lemma_mul_bound(dy as int, s as int, 400_000, 200_000);
        crate::geometry::lemma_mul_bound(dx as int, s as int, 400_000, 200_000);
        crate::geometry::lemma_mul_bound(dy as int, c as int, 400_000, 200_000);
        assert(-160_000_000_000 <= dx * c - dy * s <= 160_000_000_000) by (nonlinear_arith)
            requires
                -400_000 <= dx <= 400_000,
                -400_000 <= dy <= 400_000,
                -200_000 <= c <= 200_000,
                -200_000 <= s <= 200_000,
        ;
        assert(-160_000_000_000 <= dx * s + dy * c <= 160_000_000_000) by (nonlinear_arith)
            requires
                -400_000 <= dx <= 400_000,
                -400_000 <= dy <= 400_000,
                -200_000 <= c <= 200_000,
                -200_000 <= s <= 200_000,
        ;
    }
    let rx: i64 = dx * c - dy * s;
    let ry: i64 = dx * s + dy * c;
    proof {
        assert(0 <= rx * rx <= 25_600_000_000_000_000_000_000 && 0 <= ry * ry
            <= 25_600_000_000_000_000_000_000) by (nonlinear_arith)
            requires
                -160_000_000_000 <= rx <= 160_000_000_000,
                -160_000_000_000 <= ry <= 160_000_000_000,
        ;
    }
    let len2: u128 = ((rx as i128) * (rx as i128) + (ry as i128) * (ry as i128)) as u128;
    let l = integer_sqrt(len2);
    proof {
        lemma_cos_positive(drift as int);
        lemma_rotation_norm(dx as int, dy as int, c as int, s as int);
        assert(s * s >= 0) by (nonlinear_arith);
        assert(dx * dx + dy * dy >= 1) by (nonlinear_arith)
            requires
                dx != 0 || dy != 0,
        ;
        assert(c * c >= 1) by (nonlinear_arith)
            requires
                c >= 50_000,
        ;
        assert((dx * dx + dy * dy) * (c * c + s * s) >= 1) by (nonlinear_arith)
            requires
                dx * dx + dy * dy >= 1,
                c * c >= 1,
                s * s >= 0,
        ;
        assert(l != 0);
    }
    proof {
        assert(-(l as int) <= rx <= l && -(l as int) <= ry <= l) by (nonlinear_arith)
            requires
                rx * rx + ry * ry < (l + 1) * (l + 1),
                0 <= ry * ry,
                0 <= rx * rx,
                0 <= l,
        ;
        assert(l * l <= 51_200_000_000_000_000_000_000);
        assert(l <= 0x1_0000_0000_0000) by (nonlinear_arith)
            requires
                l * l <= 51_200_000_000_000_000_000_000,
                0 <= l,
        ;
        assert(-8_000_000_000_000_000 <= rx * limb <= 8_000_000_000_000_000) by (nonlinear_arith)
            requires
                -160_000_000_000 <= rx <= 160_000_000_000,
                0 <= limb <= 50_000,
        ;
        assert(-8_000_000_000_000_000 <= ry * limb <= 8_000_000_000_000_000) by (nonlinear_arith)
            requires
                -160_000_000_000 <= ry <= 160_000_000_000,
                0 <= limb <= 50_000,
        ;
        lemma_offset_bound(rx as int, limb as int, l as int);
        lemma_offset_bound(ry as int, limb as int, l as int);
    }
    let ox = div_round(rx * limb, l as i64);
    let oy = div_round(ry * limb, l as i64);
    Point { x: clamp(end.x + ox), y: clamp(end.y + oy) }
}

/// A component of at most `l` in size, scaled by `limb / l`, is at most
/// `limb` in size.
proof fn lemma_offset_bound(v: int, limb: int, l: int)
    requires
        -l <= v <= l,
        0 < l,
        0 <= limb,
    ensures
        -limb <= round_div(v * limb, l) <= limb,
{
    if v >= 0 {
        crate::geometry::lemma_round_between(v, l, limb);
    } else {
        crate::geometry::lemma_round_between(-v, l, -limb);
        assert(v * limb == (-v) * (-limb)) by (nonlinear_arith);
    }
}

} // verus!
