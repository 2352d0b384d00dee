//! Fixed-point points, rounding division, the segment intersection test,
//! cubic ease-out and linear interpolation.
use vstd::arithmetic::div_mod::{
    lemma_div_is_ordered,
    lemma_fundamental_div_mod,
    lemma_fundamental_div_mod_converse,
    lemma_mod_pos_bound,
};
use vstd::prelude::*;

verus! {

/// Steps in one unit of the normalized drawing space.
pub const UNIT: i64 = 100_000;

/// Half a unit: the edge of the region in which segments may split.
pub const HALF_UNIT: i64 = 50_000;

/// Largest magnitude a coordinate may have.
pub const COORD_LIMIT: i64 = 200_000;

/// Steps of a growth fraction that make up the whole segment.
pub const GROWTH_FULL: i64 = 1_000_000;

/// A point in the normalized space, in steps of `1 / UNIT`.
#[derive(Clone, Copy, Debug, PartialEq, Eq, Structural)]
pub struct Point {
    pub x: i64,
    pub y: i64,
}

impl Point {
    /// Both coordinates lie within `[-COORD_LIMIT, COORD_LIMIT]`.
    pub open spec fn in_range(self) -> bool {
        -COORD_LIMIT <= self.x <= COORD_LIMIT && -COORD_LIMIT <= self.y <= COORD_LIMIT
    }

    pub fn new(x: i64, y: i64) -> (r: Point)
        ensures
            r == (Point { x, y }),
    {
        Point { x, y }
    }
}

/// `a / b` rounded to the nearest integer, halves rounded up (for `b > 0`).
pub open spec fn round_div(a: int, b: int) -> int {
    (2 * a + b) / (2 * b)
}

/// Floor division for a positive divisor.
pub fn div_floor(a: i64, b: i64) -> (r: i64)
    requires
        b > 0,
    ensures
        r == a as int / b as int,
{
    if a >= 0 {
        ((a as u64) / (b as u64)) as i64
    } else {
        let q: u64 = ((-(a + 1)) as u64) / (b as u64);
        proof {
            let x = -(a + 1);
            let rem = x % (b as int);
            lemma_mod_pos_bound(x, b as int);
            lemma_fundamental_div_mod(x, b as int);
            assert(x == (q as int) * b + rem) by (nonlinear_arith)
                requires
                    x == b * (x / (b as int)) + rem,
                    q as int == x / (b as int),
            ;
            assert(a == (-(q as int) - 1) * b + (b - 1 - rem)) by (nonlinear_arith)
                requires
                    x == (q as int) * b + rem,
                    x == -(a + 1),
            ;
            lemma_fundamental_div_mod_converse(a as int, b as int, -(q as int) - 1, b - 1 - rem);
        }
        -(q as i64) - 1
    }
}

/// Division rounded to the nearest integer, halves rounded up.
pub fn div_round(a: i64, b: i64) -> (r: i64)
    requires
        0 < b <= 0x1_0000_0000_0000,
        -0x1000_0000_0000_0000 <= a <= 0x1000_0000_0000_0000,
    ensures
        r == round_div(a as int, b as int),
{
    div_floor(2 * a + b, 2 * b)
}

/// `round_div(n * dx, m)` lies between `0` and `dx` when `0 <= n <= m`.
pub proof fn lemma_round_between(n: int, m: int, dx: int)
    requires
        0 <= n <= m,
        0 < m,
    ensures
        dx >= 0 ==> 0 <= round_div(n * dx, m) <= dx,
        dx < 0 ==> dx <= round_div(n * dx, m) <= 0,
{
    assert(2 * m * dx + m == dx * (2 * m) + m) by (nonlinear_arith);
    lemma_fundamental_div_mod_converse(2 * m * dx + m, 2 * m, dx, m);
    lemma_fundamental_div_mod_converse(m, 2 * m, 0, m);
    lemma_fundamental_div_mod_converse(0, 2 * m, 0, 0);
    if dx >= 0 {
        assert(0 <= n * dx <= m * dx) by (nonlinear_arith)
            requires
                0 <= n <= m,
                dx >= 0,
        ;
        assert(2 * (n * dx) + m <= 2 * m * dx + m) by (nonlinear_arith)
            requires
                n * dx <= m * dx,
        ;
        lemma_div_is_ordered(0, 2 * (n * dx) + m, 2 * m);
        lemma_div_is_ordered(2 * (n * dx) + m, 2 * m * dx + m, 2 * m);
    } else {
        assert(m * dx <= n * dx <= 0) by (nonlinear_arith)
            requires
                0 <= n <= m,
                dx < 0,
        ;
        assert(2 * m * dx + m <= 2 * (n * dx) + m) by (nonlinear_arith)
            requires
                m * dx <= n * dx,
        ;
        lemma_div_is_ordered(2 * m * dx + m, 2 * (n * dx) + m, 2 * m);
        lemma_div_is_ordered(2 * (n * dx) + m, m, 2 * m);
    }
}

/// `|a * b| <= x * y` when `|a| <= x` and `|b| <= y`.
pub proof fn lemma_mul_bound(a: int, b: int, x: int, y: int)
    requires
        -x <= a <= x,
        -y <= b <= y,
    ensures
        -(x * y) <= a * b <= x * y,
{
    assert(-(x * y) <= a * b <= x * y) by (nonlinear_arith)
        requires
            -x <= a <= x,
            -y <= b <= y,
    ;
}

/// `a * b - c * d` on coordinate differences.
fn cross(a: i64, b: i64, c: i64, d: i64) -> (r: i64)
    requires
        -2 * COORD_LIMIT <= a <= 2 * COORD_LIMIT,
        -2 * COORD_LIMIT <= b <= 2 * COORD_LIMIT,
        -2 * COORD_LIMIT <= c <= 2 * COORD_LIMIT,
        -2 * COORD_LIMIT <= d <= 2 * COORD_LIMIT,
    ensures
        r == a * b - c * d,
        -2 * (4 * COORD_LIMIT * COORD_LIMIT) <= r <= 2 * (4 * COORD_LIMIT * COORD_LIMIT),
{
    proof {
        lemma_mul_bound(a as int, b as int, 400_000, 400_000);
        lemma_mul_bound(c as int, d as int, 400_000, 400_000);
        assert(400_000 * 400_000 == 160_000_000_000int);
    }
    a * b - c * d
}

/// The denominator of the parametric intersection of `s1-e1` and `s2-e2`.
pub open spec fn denominator(s1: Point, e1: Point, s2: Point, e2: Point) -> int {
    (e2.y - s2.y) * (e1.x - s1.x) - (e2.x - s2.x) * (e1.y - s1.y)
}

/// The numerator of the parameter along `s1-e1`.
pub open spec fn numerator_a(s1: Point, e1: Point, s2: Point, e2: Point) -> int {
    (e2.x - s2.x) * (s1.y - s2.y) - (e2.y - s2.y) * (s1.x - s2.x)
}

/// The numerator of the parameter along `s2-e2`.
pub open spec fn numerator_b(s1: Point, e1: Point, s2: Point, e2: Point) -> int {
    (e1.x - s1.x) * (s1.y - s2.y) - (e1.y - s1.y) * (s1.x - s2.x)
}

/// The two segments have an end point in common.
pub open spec fn shares_endpoint(s1: Point, e1: Point, s2: Point, e2: Point) -> bool {
    s1 == s2 || s1 == e2 || e1 == s2 || e1 == e2
}

/// The fraction `n / d` (with `d != 0`) lies in `[0, 1]`.
pub open spec fn in_unit_interval(n: int, d: int) -> bool {
    if d > 0 {
        0 <= n <= d
    } else {
        d <= n <= 0
    }
}

/// The point at parameter `n / d` along `s1-e1`, each coordinate rounded to
/// the nearest step.
pub open spec fn point_along(s1: Point, e1: Point, n: int, d: int) -> Point {
    let (num, den) = if d > 0 {
        (n, d)
    } else {
        (-n, -d)
    };
    Point {
        x: (s1.x + round_div(num * (e1.x - s1.x), den)) as i64,
        y: (s1.y + round_div(num * (e1.y - s1.y), den)) as i64,
    }
}

/// Where segment `s1-e1` crosses segment `s2-e2`: none when they share an end
/// point, are parallel or collinear, or when a crossing of the two lines lies
/// outside either segment.
pub open spec fn intersection(s1: Point, e1: Point, s2: Point, e2: Point) -> Option<Point> {
    let d = denominator(s1, e1, s2, e2);
    let na = numerator_a(s1, e1, s2, e2);
    let nb = numerator_b(s1, e1, s2, e2);
    if shares_endpoint(s1, e1, s2, e2) || d == 0 || (na == 0 && nb == 0) {
        None
    } else if in_unit_interval(na, d) && in_unit_interval(nb, d) {
        Some(point_along(s1, e1, na, d))
    } else {
        None
    }
}

/// The smallest axis-aligned rectangle holding both points contains `p`.
pub open spec fn between(p: Point, a: Point, b: Point) -> bool {
    (a.x <= p.x <= b.x || b.x <= p.x <= a.x) && (a.y <= p.y <= b.y || b.y <= p.y <= a.y)
}

/// Tests whether segment `s1-e1` crosses segment `s2-e2` and where.
pub fn check_intersection(s1: Point, e1: Point, s2: Point, e2: Point) -> (r: Option<Point>)
    requires
        s1.in_range(),
        e1.in_range(),
        s2.in_range(),
        e2.in_range(),
    ensures
        r == intersection(s1, e1, s2, e2),
        r matches Some(p) ==> between(p, s1, e1) && between(p, s2, e2) && p.in_range(),
{
    if s1 == s2 || s1 == e2 || e1 == s2 || e1 == e2 {
        return None;
    }
    let d = cross(e2.y - s2.y, e1.x - s1.x, e2.x - s2.x, e1.y - s1.y);
    let na = cross(e2.x - s2.x, s1.y - s2.y, e2.y - s2.y, s1.x - s2.x);
    let nb = cross(e1.x - s1.x, s1.y - s2.y, e1.y - s1.y, s1.x - s2.x);
    if d == 0 || (na == 0 && nb == 0) {
        return None;
    }
    let a_inside = if d > 0 {
        0 <= na && na <= d
    } else {
        d <= na && na <= 0
    };
    let b_inside = if d > 0 {
        0 <= nb && nb <= d
    } else {
        d <= nb && nb <= 0
    };
    if !(a_inside && b_inside) {
        return None;
    }
    let (num, den) = if d > 0 {
        (na, d)
    } else {
        (-na, -d)
    };
    let dx = e1.x - s1.x;
    let dy = e1.y - s1.y;
    proof {
        lemma_mul_bound(num as int, dx as int, den as int, 2 * COORD_LIMIT);
        lemma_mul_bound(num as int, dy as int, den as int, 2 * COORD_LIMIT);
        assert(den * (2 * COORD_LIMIT) <= 0x1000_0000_0000_0000) by (nonlinear_arith)
            requires
                0 < den <= 2 * (4 * COORD_LIMIT * COORD_LIMIT),
        ;
        lemma_round_between(num as int, den as int, dx as int);
        lemma_round_between(num as int, den as int, dy as int);
    }
    proof {
        if intersection(s1, e1, s2, e2) is Some {
            crate::spatial::lemma_crossing_within_second(s1, e1, s2, e2);
        }
    }
    let x = s1.x + div_round(num * dx, den);
    let y = s1.y + div_round(num * dy, den);
    Some(Point { x, y })
}

/// Squared euclidean distance.
pub open spec fn dist2(a: Point, b: Point) -> int {
    (b.x - a.x) * (b.x - a.x) + (b.y - a.y) * (b.y - a.y)
}

/// Squared euclidean distance between two points.
pub fn distance_squared(a: Point, b: Point) -> (r: i64)
    requires
        a.in_range(),
        b.in_range(),
    ensures
        r == dist2(a, b),
{
    let x = b.x - a.x;
    let y = b.y - a.y;
    proof {
        lemma_mul_bound(x as int, x as int, 2 * COORD_LIMIT, 2 * COORD_LIMIT);
        lemma_mul_bound(y as int, y as int, 2 * COORD_LIMIT, 2 * COORD_LIMIT);
    }
    x * x + y * y
}

/// Cubic ease-out `(t - 1)^3 + 1` on growth fractions, rounded down.
pub open spec fn ease_out(t: int) -> int {
    let f = t - GROWTH_FULL;
    (f * f * f) / (GROWTH_FULL * GROWTH_FULL) + GROWTH_FULL
}

/// Cubic ease-out of a growth fraction.
pub fn cubic_out(t: i64) -> (r: i64)
    requires
        0 <= t <= GROWTH_FULL,
    ensures
        r == ease_out(t as int),
        0 <= r <= GROWTH_FULL,
{
    let f = t - GROWTH_FULL;
    proof {
        assert(-GROWTH_FULL * GROWTH_FULL * GROWTH_FULL <= f * f * f <= 0) by (nonlinear_arith)
            requires
                -GROWTH_FULL <= f <= 0,
        ;
        lemma_div_is_ordered(
            -GROWTH_FULL * GROWTH_FULL * GROWTH_FULL,
            f * f * f,
            GROWTH_FULL * GROWTH_FULL,
        );
        lemma_div_is_ordered(f * f * f, 0, GROWTH_FULL * GROWTH_FULL);
        assert(0 <= f * f <= 1_000_000_000_000 && -1_000_000_000_000_000_000 <= f * f * f <= 0)
            by (nonlinear_arith)
            requires
                -1_000_000 <= f <= 0,
        ;
    }
    div_floor(f * f * f, GROWTH_FULL * GROWTH_FULL) + GROWTH_FULL
}

/// The point a fraction `frac / GROWTH_FULL` of the way from `a` to `b`.
pub open spec fn lerp_spec(a: Point, b: Point, frac: int) -> Point {
    Point {
        x: (a.x + round_div((b.x - a.x) * frac, GROWTH_FULL as int)) as i64,
        y: (a.y + round_div((b.y - a.y) * frac, GROWTH_FULL as int)) as i64,
    }
}

/// Linear interpolation between two points.
pub fn lerp(a: Point, b: Point, frac: i64) -> (r: Point)
    requires
        a.in_range(),
        b.in_range(),
        0 <= frac <= GROWTH_FULL,
    ensures
        r == lerp_spec(a, b, frac as int),
        between(r, a, b),
        r.in_range(),
{
    let dx = b.x - a.x;
    let dy = b.y - a.y;
    proof {
        lemma_mul_bound(dx as int, frac as int, 2 * COORD_LIMIT, GROWTH_FULL as int);
        lemma_mul_bound(dy as int, frac as int, 2 * COORD_LIMIT, GROWTH_FULL as int);
        lemma_round_between(frac as int, GROWTH_FULL as int, dx as int);
        lemma_round_between(frac as int, GROWTH_FULL as int, dy as int);
        assert(dx * frac == frac * dx) by (nonlinear_arith);
        assert(dy * frac == frac * dy) by (nonlinear_arith);
    }
    Point { x: a.x + div_round(dx * frac, GROWTH_FULL), y: a.y + div_round(dy * frac, GROWTH_FULL) }
}

/// The ease-out of a growth fraction is a growth fraction.
pub proof fn lemma_ease_out_bounds(t: int)
    requires
        0 <= t <= GROWTH_FULL,
    ensures
        0 <= ease_out(t) <= GROWTH_FULL,
        0 <= (t * ease_out(t)) / (GROWTH_FULL as int) <= GROWTH_FULL,
{
    let f = t - GROWTH_FULL;
    assert(-1_000_000_000_000_000_000 <= f * f * f <= 0) by (nonlinear_arith)
        requires
            -1_000_000 <= f <= 0,
    ;
    lemma_div_is_ordered(-1_000_000_000_000_000_000, f * f * f, 1_000_000_000_000);
    lemma_div_is_ordered(f * f * f, 0, 1_000_000_000_000);
    let e = ease_out(t);
    assert(0 <= t * e <= 1_000_000_000_000) by (nonlinear_arith)
        requires
            0 <= t <= 1_000_000,
            0 <= e <= 1_000_000,
    ;
    lemma_div_is_ordered(0, t * e, 1_000_000);
    lemma_div_is_ordered(t * e, 1_000_000_000_000, 1_000_000);
}

/// Interpolating between two points stays between them.
pub proof fn lemma_lerp_between(a: Point, b: Point, frac: int)
    requires
        a.in_range(),
        b.in_range(),
        0 <= frac <= GROWTH_FULL,
    ensures
        between(lerp_spec(a, b, frac), a, b),
        lerp_spec(a, b, frac).in_range(),
{
    lemma_round_between(frac, GROWTH_FULL as int, b.x - a.x);
    lemma_round_between(frac, GROWTH_FULL as int, b.y - a.y);
    assert((b.x - a.x) * frac == frac * (b.x - a.x)) by (nonlinear_arith);
    assert((b.y - a.y) * frac == frac * (b.y - a.y)) by (nonlinear_arith);
}

} // verus!
