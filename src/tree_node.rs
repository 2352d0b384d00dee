//! A segment of the tree, its per-segment parameters, and what drawing it
//! emits.
use crate::geometry::{
    between, cubic_out, dist2, distance_squared, ease_out, intersection, lerp, lerp_spec, Point, GROWTH_FULL,
};
use crate::random::{next_state, scaled, Rng};
use vstd::prelude::*;

verus! {

/// Longest limb a new segment may be given (half a unit).
pub const MAX_LIMB: i64 = 50_000;

/// Angles count steps of `1 / ANGLE_UNIT` radian.
pub const ANGLE_UNIT: i64 = 100_000;

/// Widest range of angle drift a split may draw from (two radians).
pub const MAX_THETA_RANGE: i64 = 200_000;

/// Range of the angle drift of a split, one radian.
pub const DEFAULT_THETA_RANGE: i64 = 100_000;

/// Generation at which a branch stops splitting.
pub const DEFAULT_MAX_TREE_DEPTH: i32 = 40;

/// Number of children made when a segment finishes growing.
pub const DEFAULT_SPLIT_COUNT: i32 = 3;

/// Bounds of the growth added per tick, as growth fractions.
pub const GROW_SPEED_MIN: i64 = 20_000;

pub const GROW_SPEED_MAX: i64 = 80_000;

/// Bounds of the length of a segment's children, in coordinate steps.
pub const LIMB_LENGTH_MIN: i64 = 1_000;

pub const LIMB_LENGTH_MAX: i64 = 4_000;

/// A line to draw, from `from` to `to`, in normalized coordinates.
#[derive(Clone, Copy, Debug, PartialEq, Eq, Structural)]
pub struct Line {
    pub from: Point,
    pub to: Point,
}

/// A segment of the tree.
pub struct TreeNode {
    pub start: Point,
    pub end: Point,
    /// The end point drawn by the last draw that drew this segment.
    pub last_drawn_end: Point,
    pub fully_drawn: bool,
    /// The grown fraction of the segment, out of `GROWTH_FULL`.
    pub growth_length: i64,
    pub depth: i32,
    /// Arena indices of the children, in the order they were made.
    pub children: Vec<usize>,
    pub grow_speed: i64,
    pub limb_length: i64,
    pub split_theta_range: i64,
    pub max_tree_depth: i32,
    pub split_count: i32,
}

impl TreeNode {
    pub open spec fn wf(&self) -> bool {
        &&& self.start.in_range()
        &&& self.end.in_range()
        &&& self.last_drawn_end.in_range()
        &&& 0 <= self.growth_length <= GROWTH_FULL
        &&& 0 <= self.grow_speed <= GROWTH_FULL
        &&& 0 <= self.limb_length <= MAX_LIMB
        &&& 0 <= self.split_theta_range <= MAX_THETA_RANGE
        &&& 0 <= self.depth
        &&& 0 <= self.split_count
        &&& 0 <= self.max_tree_depth
        &&& (self.fully_drawn ==> self.growth_length == GROWTH_FULL)
    }

    /// A segment from `start` to `end` with the growth speed and limb length
    /// given.
    pub fn with_params(start: Point, end: Point, depth: i32, grow_speed: i64, limb_length: i64) -> (r:
        TreeNode)
        ensures
            r.start == start && r.end == end && r.last_drawn_end == start,
            !r.fully_drawn && r.growth_length == 0 && r.depth == depth,
            r.children@ == Seq::<usize>::empty(),
            r.grow_speed == grow_speed && r.limb_length == limb_length,
            r.split_theta_range == DEFAULT_THETA_RANGE,
            r.max_tree_depth == DEFAULT_MAX_TREE_DEPTH,
            r.split_count == DEFAULT_SPLIT_COUNT,
            start.in_range() && end.in_range() && 0 <= depth && 0 <= grow_speed <= GROWTH_FULL && 0
                <= limb_length <= MAX_LIMB ==> r.wf(),
    {
        TreeNode {
            start,
            end,
            last_drawn_end: start,
            fully_drawn: false,
            growth_length: 0,
            depth,
            children: Vec::new(),
            grow_speed,
            limb_length,
            split_theta_range: DEFAULT_THETA_RANGE,
            max_tree_depth: DEFAULT_MAX_TREE_DEPTH,
            split_count: DEFAULT_SPLIT_COUNT,
        }
    }

    /// A segment from `(start_x, start_y)` to `(end_x, end_y)` whose growth
    /// speed and limb length are drawn from `rng`, the speed first.
    pub fn new(start_x: i64, start_y: i64, end_x: i64, end_y: i64, depth: i32, rng: &mut Rng) -> (r:
        TreeNode)
        requires
            old(rng).wf(),
            (Point { x: start_x, y: start_y }).in_range(),
            (Point { x: end_x, y: end_y }).in_range(),
            0 <= depth,
        ensures
            final(rng).wf(),
            r.wf(),
            r.start == (Point { x: start_x, y: start_y }),
            r.end == (Point { x: end_x, y: end_y }),
            r.last_drawn_end == r.start,
            !r.fully_drawn && r.growth_length == 0 && r.depth == depth,
            r.children@ == Seq::<usize>::empty(),
            final(rng).state == next_state(next_state(old(rng).state)),
            r.grow_speed == scaled(
                GROW_SPEED_MIN as int,
                GROW_SPEED_MAX as int,
                next_state(old(rng).state),
            ),
            r.limb_length == scaled(
                LIMB_LENGTH_MIN as int,
                LIMB_LENGTH_MAX as int,
                next_state(next_state(old(rng).state)),
            ),
            GROW_SPEED_MIN <= r.grow_speed < GROW_SPEED_MAX,
            LIMB_LENGTH_MIN <= r.limb_length < LIMB_LENGTH_MAX,
            r.split_theta_range == DEFAULT_THETA_RANGE,
            r.max_tree_depth == DEFAULT_MAX_TREE_DEPTH,
            r.split_count == DEFAULT_SPLIT_COUNT,
    {
        let grow_speed = rng.uniform(GROW_SPEED_MIN, GROW_SPEED_MAX);
        let limb_length = rng.uniform(LIMB_LENGTH_MIN, LIMB_LENGTH_MAX);
        TreeNode::with_params(
            Point { x: start_x, y: start_y },
            Point { x: end_x, y: end_y },
            depth,
            grow_speed,
            limb_length,
        )
    }

    /// Where this segment crosses `other`, if it does.
    pub fn intersects(&self, other: &TreeNode) -> (r: Option<Point>)
        requires
            self.wf(),
            other.wf(),
        ensures
            r == intersection(self.start, self.end, other.start, other.end),
            r matches Some(p) ==> p.in_range() && between(p, self.start, self.end) && between(
                p,
                other.start,
                other.end,
            ),
    {
        crate::geometry::check_intersection(self.start, self.end, other.start, other.end)
    }

    /// The first of the points closest to this segment's start.
    pub fn find_nearest_intersection(&self, intersections: Vec<Point>) -> (r: Option<Point>)
        requires
            self.start.in_range(),
            forall|k: int| 0 <= k < intersections@.len() ==> (#[trigger] intersections@[k]).in_range(),
        ensures
            r is None <==> intersections@.len() == 0,
            r matches Some(p) ==> is_first_nearest(intersections@, self.start, p),
    {
        let mut best: Option<Point> = None;
        let mut best_d: i64 = 0;
        let mut i: usize = 0;
        let ghost mut best_k: int = 0;
        while i < intersections.len()
            invariant
                self.start.in_range(),
                forall|k: int|
                    0 <= k < intersections@.len() ==> (#[trigger] intersections@[k]).in_range(),
                0 <= i <= intersections@.len(),
                best is None <==> i == 0,
                best matches Some(p) ==> {
                    &&& 0 <= best_k < i
                    &&& p == intersections@[best_k]
                    &&& best_d == dist2(p, self.start)
                    &&& forall|j: int|
                        0 <= j < i ==> dist2(p, self.start) <= dist2(
                            #[trigger] intersections@[j],
                            self.start,
                        )
                    &&& forall|j: int|
                        0 <= j < best_k ==> dist2(p, self.start) < dist2(
                            #[trigger] intersections@[j],
                            self.start,
                        )
                },
            decreases intersections@.len() - i,
        {
            let p = intersections[i];
            let d = distance_squared(p, self.start);
            if best.is_none() || d < best_d {
                best = Some(p);
                best_d = d;
                proof {
                    best_k = i as int;
                }
            }
            i = i + 1;
        }
        proof {
            if let Some(p) = best {
                assert(is_first_nearest(intersections@, self.start, p)) by {
                    assert(0 <= best_k < intersections@.len() && intersections@[best_k] == p);
                }
            }
        }
        best
    }

    /// The end point that a draw shows: the true end once fully grown, else
    /// the eased fraction of the way there.
    pub open spec fn visible_end(&self) -> Point {
        if self.growth_length == GROWTH_FULL {
            self.end
        } else {
            lerp_spec(
                self.start,
                self.end,
                (self.growth_length * ease_out(self.growth_length as int)) / (GROWTH_FULL as int),
            )
        }
    }

    /// Whether a draw pass with the given flag draws this segment.
    pub open spec fn redraws(&self, force_redraw: bool) -> bool {
        force_redraw || !self.fully_drawn
    }

    /// The line a draw pass emits for this segment: from the start on a
    /// forced redraw, else from where the last draw ended.
    pub open spec fn drawn_line(&self, force_redraw: bool) -> Line {
        Line {
            from: if force_redraw {
                self.start
            } else {
                self.last_drawn_end
            },
            to: self.visible_end(),
        }
    }

    /// This segment after a draw pass has visited it.
    pub open spec fn after_draw(self, force_redraw: bool) -> TreeNode {
        TreeNode {
            last_drawn_end: if self.redraws(force_redraw) {
                self.visible_end()
            } else {
                self.last_drawn_end
            },
            fully_drawn: self.fully_drawn || self.growth_length == GROWTH_FULL,
            ..self
        }
    }

    /// The end point to draw now.
    pub fn compute_visible_end(&self) -> (r: Point)
        requires
            self.wf(),
        ensures
            r == self.visible_end(),
            r.in_range(),
    {
        if self.growth_length == GROWTH_FULL {
            self.end
        } else {
            let e = cubic_out(self.growth_length);
            proof {
                assert(0 <= self.growth_length * e <= GROWTH_FULL * GROWTH_FULL) by (nonlinear_arith)
                    requires
                        0 <= self.growth_length <= GROWTH_FULL,
                        0 <= e <= GROWTH_FULL,
                ;
                vstd::arithmetic::div_mod::lemma_div_is_ordered(
                    0,
                    self.growth_length * e,
                    GROWTH_FULL as int,
                );
                vstd::arithmetic::div_mod::lemma_div_is_ordered(
                    self.growth_length * e,
                    GROWTH_FULL * GROWTH_FULL,
                    GROWTH_FULL as int,
                );
                vstd::arithmetic::div_mod::lemma_div_multiples_vanish(
                    GROWTH_FULL as int,
                    GROWTH_FULL as int,
                );
            }
            let frac = (self.growth_length * e) / GROWTH_FULL;
            lerp(self.start, self.end, frac)
        }
    }

    /// Visits this segment in a draw pass: returns the line to emit, if any,
    /// and records what was drawn.
    pub fn draw_step(&mut self, force_redraw: bool) -> (r: Option<Line>)
        requires
            old(self).wf(),
        ensures
            *final(self) == old(self).after_draw(force_redraw),
            final(self).wf(),
            r == (if old(self).redraws(force_redraw) {
                Some(old(self).drawn_line(force_redraw))
            } else {
                None
            }),
    {
        let do_redraw = force_redraw || !self.fully_drawn;
        let end = self.compute_visible_end();
        let start = if force_redraw {
            self.start
        } else {
            self.last_drawn_end
        };
        if self.growth_length == GROWTH_FULL {
            self.fully_drawn = true;
        }
        if do_redraw {
            self.last_drawn_end = end;
            Some(Line { from: start, to: end })
        } else {
            None
        }
    }
}

/// The visible end of a well-formed segment is in range.
pub proof fn lemma_visible_end_in_range(n: TreeNode)
    requires
        n.wf(),
    ensures
        n.visible_end().in_range(),
{
    if n.growth_length != GROWTH_FULL {
        crate::geometry::lemma_ease_out_bounds(n.growth_length as int);
        crate::geometry::lemma_lerp_between(
            n.start,
            n.end,
            (n.growth_length * ease_out(n.growth_length as int)) / (GROWTH_FULL as int),
        );
    }
}

/// `p` is the first entry of `points` among those closest to `origin`.
pub open spec fn is_first_nearest(points: Seq<Point>, origin: Point, p: Point) -> bool {
    exists|k: int|
        0 <= k < points.len() && points[k] == p && (forall|j: int|
            0 <= j < points.len() ==> dist2(p, origin) <= dist2(#[trigger] points[j], origin)) && (
        forall|j: int| 0 <= j < k ==> dist2(p, origin) < dist2(#[trigger] points[j], origin))
}

/// A segment once visited by a draw pass draws nothing but single points on
/// later passes that are not forced, as long as it does not grow.
pub proof fn lemma_redraw_is_still(n: TreeNode, force_redraw: bool)
    requires
        n.wf(),
    ensures
        ({
            let m = n.after_draw(force_redraw);
            m.redraws(false) ==> m.drawn_line(false).from == m.drawn_line(false).to
        }),
        n.after_draw(force_redraw).after_draw(false).last_drawn_end == n.after_draw(
            force_redraw,
        ).last_drawn_end,
{
}

} // verus!
