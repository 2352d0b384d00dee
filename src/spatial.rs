//! Bounding rectangles and the spatial index over segments.
//!
//! The index is spade's r*-tree. Each entry is stored as a three-dimensional
//! box whose third axis holds the segment's arena index as a single value, so
//! that a lookup hands back the indices directly; every lookup spans the whole
//! third axis.
use crate::geometry::{
    between, denominator, intersection, numerator_a, numerator_b, round_div, Point,
};
use vstd::arithmetic::div_mod::{
    lemma_div_is_ordered, lemma_fundamental_div_mod_converse, lemma_hoist_over_denominator,
};
use crate::tree_node::TreeNode;
use spade::rtree::RTree;
use spade::BoundingRect;
use vstd::multiset::Multiset;
use vstd::prelude::*;

verus! {

/// The largest arena index the index can hold, and so the most segments a
/// tree may have. The index keeps each arena index as a coordinate of a
/// three-dimensional box, and spade's insertion sums box volumes in `i64`:
/// with coordinates within `COORD_LIMIT` and indices up to this bound those
/// sums cannot overflow. Once the arena is full, splits make no more
/// segments.
pub const MAX_SEGMENTS: usize = 1_000_000;

pub open spec fn min_spec(a: i64, b: i64) -> i64 {
    if a < b {
        a
    } else {
        b
    }
}

pub open spec fn max_spec(a: i64, b: i64) -> i64 {
    if a > b {
        a
    } else {
        b
    }
}

/// The smaller of two values.
pub fn min_inline(a: i64, b: i64) -> (r: i64)
    ensures
        r == min_spec(a, b),
{
    if a < b {
        a
    } else {
        b
    }
}

/// The larger of two values.
pub fn max_inline(a: i64, b: i64) -> (r: i64)
    ensures
        r == max_spec(a, b),
{
    if a > b {
        a
    } else {
        b
    }
}

/// An axis-aligned rectangle, closed on all sides.
#[derive(Clone, Copy, Debug, PartialEq, Eq, Structural)]
pub struct Rect {
    pub lower: Point,
    pub upper: Point,
}

/// The smallest rectangle holding both points.
pub open spec fn corners_rect(a: Point, b: Point) -> Rect {
    Rect {
        lower: Point { x: min_spec(a.x, b.x), y: min_spec(a.y, b.y) },
        upper: Point { x: max_spec(a.x, b.x), y: max_spec(a.y, b.y) },
    }
}

impl Rect {
    pub open spec fn wf(self) -> bool {
        self.lower.in_range() && self.upper.in_range() && self.lower.x <= self.upper.x
            && self.lower.y <= self.upper.y
    }

    /// `inner` lies within this rectangle.
    pub open spec fn covers(self, inner: Rect) -> bool {
        self.lower.x <= inner.lower.x && self.lower.y <= inner.lower.y && inner.upper.x
            <= self.upper.x && inner.upper.y <= self.upper.y
    }

    /// The two rectangles share at least one point; touching counts.
    pub open spec fn overlaps(self, other: Rect) -> bool {
        self.lower.x <= other.upper.x && self.lower.y <= other.upper.y && self.upper.x
            >= other.lower.x && self.upper.y >= other.lower.y
    }

    /// The smallest rectangle holding both corners.
    pub fn from_corners(a: Point, b: Point) -> (r: Rect)
        ensures
            r == corners_rect(a, b),
            a.in_range() && b.in_range() ==> r.wf(),
    {
        Rect {
            lower: Point { x: min_inline(a.x, b.x), y: min_inline(a.y, b.y) },
            upper: Point { x: max_inline(a.x, b.x), y: max_inline(a.y, b.y) },
        }
    }

    /// Whether the two rectangles overlap.
    pub fn intersects(&self, other: &Rect) -> (r: bool)
        ensures
            r == self.overlaps(*other),
    {
        self.lower.x <= other.upper.x && self.lower.y <= other.upper.y && self.upper.x
            >= other.lower.x && self.upper.y >= other.lower.y
    }
}

/// An entry of the spatial index: a segment's end points and its arena index.
#[derive(Clone, Copy, Debug, PartialEq, Eq, Structural)]
pub struct TreeNodeReferenceImpl {
    pub from: Point,
    pub to: Point,
    pub node_index: usize,
}

pub type TreeNodeReference = TreeNodeReferenceImpl;

impl TreeNodeReferenceImpl {
    /// The reference to `node`, stored at `node_index`.
    pub fn from_node(node: &TreeNode, node_index: usize) -> (r: TreeNodeReference)
        ensures
            r == (TreeNodeReferenceImpl { from: node.start, to: node.end, node_index }),
    {
        TreeNodeReferenceImpl { from: node.start, to: node.end, node_index }
    }

    /// The minimal bounding rectangle of the referenced segment.
    pub fn mbr(&self) -> (r: Rect)
        ensures
            r == corners_rect(self.from, self.to),
            self.from.in_range() && self.to.in_range() ==> r.wf(),
    {
        Rect::from_corners(self.from, self.to)
    }
}

/// An insert-only index of rectangles, each tagged with an arena index.
#[verifier::external_body]
pub struct SpatialIndex {
    tree: RTree<BoundingRect<[i64; 3]>>,
}

/// Each entry is held once, and no two entries share an index.
pub open spec fn tags_unique(m: Multiset<(Rect, usize)>) -> bool {
    &&& forall|e: (Rect, usize)| #[trigger] m.count(e) <= 1
    &&& forall|e1: (Rect, usize), e2: (Rect, usize)|
        #[trigger] m.contains(e1) && #[trigger] m.contains(e2) && e1.1 == e2.1 ==> e1 == e2
}

/// The rectangles and indices that an index holds.
pub uninterp spec fn index_entries(ix: SpatialIndex) -> Multiset<(Rect, usize)>;

impl SpatialIndex {
    /// An empty index.
    ///
    /// Relies on spade's `RTree::new`, which makes a tree with no elements.
    #[verifier::external_body]
    pub fn new() -> (r: SpatialIndex)
        ensures
            index_entries(r) == Multiset::<(Rect, usize)>::empty(),
    {
        SpatialIndex { tree: RTree::new() }
    }

    /// Adds a rectangle tagged with `node_index`.
    ///
    /// Relies on spade's `RTree::insert`, which adds the element and removes
    /// none; coordinates are bounded so that its area sums stay within `i64`.
    #[verifier::external_body]
    pub fn insert(&mut self, rect: Rect, node_index: usize)
        requires
            rect.wf(),
            node_index <= MAX_SEGMENTS,
        ensures
            index_entries(*final(self)) == index_entries(*old(self)).insert((rect, node_index)),
    {
        let z = node_index as i64;
        self.tree.insert(
            BoundingRect::from_corners(
                &[rect.lower.x, rect.lower.y, z],
                &[rect.upper.x, rect.upper.y, z],
            ),
        );
    }

    /// The indices of all entries whose rectangle overlaps `rect`.
    ///
    /// Relies on spade's `RTree::lookup_in_rectangle`, which returns each
    /// element whose bounding box intersects the query box, borders included,
    /// once: entries with distinct indices are distinct elements, so then no
    /// index comes back twice.
    #[verifier::external_body]
    pub fn lookup_in_rectangle(&self, rect: Rect) -> (r: Vec<usize>)
        requires
            rect.wf(),
        ensures
            forall|e: (Rect, usize)|
                #![trigger index_entries(*self).contains(e)]
                index_entries(*self).contains(e) && e.0.overlaps(rect) ==> r@.contains(e.1),
            forall|k: int|
                #![trigger r@[k]]
                0 <= k < r@.len() ==> exists|e: (Rect, usize)|
                    #![trigger index_entries(*self).contains(e)]
                    index_entries(*self).contains(e) && e.0.overlaps(rect) && e.1 == r@[k],
            tags_unique(index_entries(*self)) ==> r@.no_duplicates(),
    {
        let query = BoundingRect::from_corners(
            &[rect.lower.x, rect.lower.y, 0],
            &[rect.upper.x, rect.upper.y, MAX_SEGMENTS as i64],
        );
        self.tree.lookup_in_rectangle(&query).iter().map(|b| b.lower()[2] as usize).collect()
    }
}

/// Along one axis: the point at parameter `na / d` of `a1-a2` is the point
/// at parameter `nb / d` of `b1-b2`, so the two extents overlap.
proof fn lemma_axis_overlap(d: int, na: int, nb: int, a1: int, a2: int, b1: int, b2: int)
    requires
        d > 0,
        0 <= na <= d,
        0 <= nb <= d,
        d * a1 + na * (a2 - a1) == d * b1 + nb * (b2 - b1),
    ensures
        min_spec(a1 as i64, a2 as i64) <= max_spec(b1 as i64, b2 as i64) || !(i64::MIN <= a1
            <= i64::MAX && i64::MIN <= a2 <= i64::MAX && i64::MIN <= b1 <= i64::MAX && i64::MIN
            <= b2 <= i64::MAX),
{
    let v = d * a1 + na * (a2 - a1);
    assert(d * (if a1 < a2 { a1 } else { a2 }) <= v) by (nonlinear_arith)
        requires
            v == d * a1 + na * (a2 - a1),
            0 <= na <= d,
    ;
    assert(v <= d * (if b1 > b2 { b1 } else { b2 })) by (nonlinear_arith)
        requires
            v == d * b1 + nb * (b2 - b1),
            0 <= nb <= d,
    ;
    assert((if a1 < a2 { a1 } else { a2 }) <= (if b1 > b2 { b1 } else { b2 })) by (nonlinear_arith)
        requires
            d * (if a1 < a2 { a1 } else { a2 }) <= d * (if b1 > b2 { b1 } else { b2 }),
            d > 0,
    ;
}

proof fn lemma_cross_identity_x(a: int, b: int, c: int, d: int, e: int, f: int)
    ensures
        (d * a - c * b) * e + (c * f - d * e) * a == (a * f - b * e) * c,
{
    assert((d * a - c * b) * e == d * a * e - c * b * e) by (nonlinear_arith);
    assert((c * f - d * e) * a == c * f * a - d * e * a) by (nonlinear_arith);
    assert((a * f - b * e) * c == a * f * c - b * e * c) by (nonlinear_arith);
    assert(d * a * e == d * e * a && c * b * e == b * e * c && c * f * a == a * f * c) by (nonlinear_arith);
}

proof fn lemma_cross_identity_y(a: int, b: int, c: int, d: int, e: int, f: int)
    ensures
        (d * a - c * b) * f + (c * f - d * e) * b == (a * f - b * e) * d,
{
    assert((d * a - c * b) * f == d * a * f - c * b * f) by (nonlinear_arith);
    assert((c * f - d * e) * b == c * f * b - d * e * b) by (nonlinear_arith);
    assert((a * f - b * e) * d == a * f * d - b * e * d) by (nonlinear_arith);
    assert(d * a * f == a * f * d && c * b * f == c * f * b && d * e * b == b * e * d) by (nonlinear_arith);
}

/// Where two segments cross lies on both, so their bounding rectangles
/// overlap: a lookup with one segment's rectangle offers every segment it
/// crosses.
pub proof fn lemma_crossing_overlaps(s1: Point, e1: Point, s2: Point, e2: Point)
    requires
        intersection(s1, e1, s2, e2) is Some,
    ensures
        corners_rect(s1, e1).overlaps(corners_rect(s2, e2)),
{
    let d = denominator(s1, e1, s2, e2);
    let na = numerator_a(s1, e1, s2, e2);
    let nb = numerator_b(s1, e1, s2, e2);
    let a = e1.x - s1.x;
    let b = e1.y - s1.y;
    let c = e2.x - s2.x;
    let g = e2.y - s2.y;
    let e = s1.x - s2.x;
    let f = s1.y - s2.y;
    assert(d == g * a - c * b && na == c * f - g * e && nb == a * f - b * e);
    lemma_cross_identity_x(a, b, c, g, e, f);
    lemma_cross_identity_y(a, b, c, g, e, f);
    assert(d * s1.x + na * a == d * s2.x + nb * c) by (nonlinear_arith)
        requires
            d * e + na * a == nb * c,
            e == s1.x - s2.x,
    ;
    assert(d * s1.y + na * b == d * s2.y + nb * g) by (nonlinear_arith)
        requires
            d * f + na * b == nb * g,
            f == s1.y - s2.y,
    ;
    if d > 0 {
        lemma_axis_overlap(d, na, nb, s1.x as int, e1.x as int, s2.x as int, e2.x as int);
        lemma_axis_overlap(d, nb, na, s2.x as int, e2.x as int, s1.x as int, e1.x as int);
        lemma_axis_overlap(d, na, nb, s1.y as int, e1.y as int, s2.y as int, e2.y as int);
        lemma_axis_overlap(d, nb, na, s2.y as int, e2.y as int, s1.y as int, e1.y as int);
    } else {
        assert((-d) * s1.x + (-na) * (e1.x - s1.x) == (-d) * s2.x + (-nb) * (e2.x - s2.x)) by (nonlinear_arith)
            requires
                d * s1.x + na * (e1.x - s1.x) == d * s2.x + nb * (e2.x - s2.x),
        ;
        assert((-d) * s1.y + (-na) * (e1.y - s1.y) == (-d) * s2.y + (-nb) * (e2.y - s2.y)) by (nonlinear_arith)
            requires
                d * s1.y + na * (e1.y - s1.y) == d * s2.y + nb * (e2.y - s2.y),
        ;
        lemma_axis_overlap(-d, -na, -nb, s1.x as int, e1.x as int, s2.x as int, e2.x as int);
        lemma_axis_overlap(-d, -nb, -na, s2.x as int, e2.x as int, s1.x as int, e1.x as int);
        lemma_axis_overlap(-d, -na, -nb, s1.y as int, e1.y as int, s2.y as int, e2.y as int);
        lemma_axis_overlap(-d, -nb, -na, s2.y as int, e2.y as int, s1.y as int, e1.y as int);
    }
}

/// Rounding `v / m` to the nearest integer stays within integer bounds
/// that `v / m` lies within.
proof fn lemma_round_within(v: int, m: int, lo: int, hi: int)
    requires
        m > 0,
        m * lo <= v <= m * hi,
    ensures
        lo <= round_div(v, m) <= hi,
{
    assert(2 * m * lo <= 2 * v + m <= 2 * m * hi + m) by (nonlinear_arith)
        requires
            m * lo <= v <= m * hi,
            m > 0,
    ;
    assert(2 * m * lo == lo * (2 * m) + 0 && 2 * m * hi + m == hi * (2 * m) + m) by (nonlinear_arith);
    lemma_fundamental_div_mod_converse(2 * m * lo, 2 * m, lo, 0);
    lemma_fundamental_div_mod_converse(2 * m * hi + m, 2 * m, hi, m);
    lemma_div_is_ordered(2 * m * lo, 2 * v + m, 2 * m);
    lemma_div_is_ordered(2 * v + m, 2 * m * hi + m, 2 * m);
}

/// Along one axis: the crossing coordinate computed along `a1-a2` at
/// parameter `n / d` lies between `b1` and `b2`.
proof fn lemma_axis_point(d: int, n: int, nb: int, a1: int, a2: int, b1: int, b2: int)
    requires
        d > 0,
        0 <= n <= d,
        0 <= nb <= d,
        d * a1 + n * (a2 - a1) == d * b1 + nb * (b2 - b1),
    ensures
        (b1 <= a1 + round_div(n * (a2 - a1), d) <= b2) || (b2 <= a1 + round_div(
            n * (a2 - a1),
            d,
        ) <= b1),
{
    let v = d * a1 + n * (a2 - a1);
    lemma_hoist_over_denominator(2 * (n * (a2 - a1)) + d, a1, (2 * d) as nat);
    assert(2 * (n * (a2 - a1)) + d + a1 * (2 * d) == 2 * v + d) by (nonlinear_arith)
        requires
            v == d * a1 + n * (a2 - a1),
    ;
    assert(a1 + round_div(n * (a2 - a1), d) == round_div(v, d));
    if b1 <= b2 {
        assert(d * b1 <= v <= d * b2) by (nonlinear_arith)
            requires
                v == d * b1 + nb * (b2 - b1),
                0 <= nb <= d,
                b1 <= b2,
        ;
        lemma_round_within(v, d, b1, b2);
    } else {
        assert(d * b2 <= v <= d * b1) by (nonlinear_arith)
            requires
                v == d * b1 + nb * (b2 - b1),
                0 <= nb <= d,
                b2 < b1,
        ;
        lemma_round_within(v, d, b2, b1);
    }
}

/// The crossing point that `intersection` computes lies within the second
/// segment's bounding rectangle too, rounding included.
pub proof fn lemma_crossing_within_second(s1: Point, e1: Point, s2: Point, e2: Point)
    requires
        intersection(s1, e1, s2, e2) is Some,
    ensures
        between(intersection(s1, e1, s2, e2)->Some_0, s2, e2),
{
    let d = denominator(s1, e1, s2, e2);
    let na = numerator_a(s1, e1, s2, e2);
    let nb = numerator_b(s1, e1, s2, e2);
    let a = e1.x - s1.x;
    let b = e1.y - s1.y;
    let c = e2.x - s2.x;
    let g = e2.y - s2.y;
    let e = s1.x - s2.x;
    let f = s1.y - s2.y;
    assert(d == g * a - c * b && na == c * f - g * e && nb == a * f - b * e);
    lemma_cross_identity_x(a, b, c, g, e, f);
    lemma_cross_identity_y(a, b, c, g, e, f);
    assert(d * s1.x + na * a == d * s2.x + nb * c) by (nonlinear_arith)
        requires
            d * e + na * a == nb * c,
            e == s1.x - s2.x,
    ;
    assert(d * s1.y + na * b == d * s2.y + nb * g) by (nonlinear_arith)
        requires
            d * f + na * b == nb * g,
            f == s1.y - s2.y,
    ;
    if d > 0 {
        lemma_axis_point(d, na, nb, s1.x as int, e1.x as int, s2.x as int, e2.x as int);
        lemma_axis_point(d, na, nb, s1.y as int, e1.y as int, s2.y as int, e2.y as int);
    } else {
        assert((-d) * s1.x + (-na) * a == (-d) * s2.x + (-nb) * c) by (nonlinear_arith)
            requires
                d * s1.x + na * a == d * s2.x + nb * c,
        ;
        assert((-d) * s1.y + (-na) * b == (-d) * s2.y + (-nb) * g) by (nonlinear_arith)
            requires
                d * s1.y + na * b == d * s2.y + nb * g,
        ;
        lemma_axis_point(-d, -na, -nb, s1.x as int, e1.x as int, s2.x as int, e2.x as int);
        lemma_axis_point(-d, -na, -nb, s1.y as int, e1.y as int, s2.y as int, e2.y as int);
    }
}

} // verus!
