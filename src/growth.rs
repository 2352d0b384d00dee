//! Growing the tree: each tick advances the growth leaves, and a leaf that
//! has just finished growing splits into children that stop where they run
//! into an existing segment.
use crate::branching::{candidate_end, child_end};
use crate::arena::{
    descends, index_covers, lemma_descends_below, lemma_descends_prefix, lemma_descends_trans,
    same_but_children, State,
};
use crate::geometry::{between, dist2, intersection, Point, GROWTH_FULL, HALF_UNIT};
use crate::random::{next_state, scaled};
use crate::random::Rng;
use crate::spatial::{
    tags_unique, corners_rect, index_entries, lemma_crossing_overlaps, Rect, SpatialIndex, MAX_SEGMENTS,
};
use crate::tree_node::{
    TreeNode, DEFAULT_MAX_TREE_DEPTH, DEFAULT_SPLIT_COUNT, DEFAULT_THETA_RANGE, GROW_SPEED_MAX,
    GROW_SPEED_MIN, LIMB_LENGTH_MAX, LIMB_LENGTH_MIN,
};
use vstd::prelude::*;

verus! {

/// Segment `j` is a lookup candidate for the rectangle `q`: an entry of the
/// index tagged `j` overlaps `q`.
pub open spec fn indexed_near(ix: SpatialIndex, q: Rect, j: int) -> bool {
    exists|e: (Rect, usize)|
        #![trigger index_entries(ix).contains(e)]
        index_entries(ix).contains(e) && e.0.overlaps(q) && e.1 == j
}

/// `p` is where the segment `a`-`b` crosses one of `nodes` that the index
/// offers for its bounding rectangle.
pub open spec fn is_hit(nodes: Seq<TreeNode>, ix: SpatialIndex, a: Point, b: Point, p: Point) -> bool {
    exists|j: int|
        0 <= j < nodes.len() && #[trigger] indexed_near(ix, corners_rect(a, b), j) && intersection(
            a,
            b,
            nodes[j].start,
            nodes[j].end,
        ) == Some(p)
}

/// `p` is where the segment `a`-`b` crosses one of `nodes`.
pub open spec fn is_crossing(nodes: Seq<TreeNode>, a: Point, b: Point, p: Point) -> bool {
    exists|j: int|
        0 <= j < nodes.len() && #[trigger] intersection(a, b, nodes[j].start, nodes[j].end) == Some(
            p,
        )
}

/// `points` lists, once for each of `nodes` that the segment `a`-`b`
/// crosses, where it crosses it: `order` names the segment of each point.
/// This is what a scan of all the segments gives, up to order.
pub open spec fn crossing_listing(
    nodes: Seq<TreeNode>,
    a: Point,
    b: Point,
    order: Seq<usize>,
    points: Seq<Point>,
) -> bool {
    &&& order.no_duplicates()
    &&& order.len() == points.len()
    &&& forall|k: int|
        0 <= k < order.len() ==> #[trigger] order[k] < nodes.len() && intersection(
            a,
            b,
            nodes[order[k] as int].start,
            nodes[order[k] as int].end,
        ) == Some(points[k])
    &&& forall|j: int|
        0 <= j < nodes.len() && (#[trigger] intersection(a, b, nodes[j].start, nodes[j].end))
            is Some ==> order.contains(j as usize)
}

/// `p` is a crossing of `a`-`b` with one of `nodes` closest to `a`.
pub open spec fn is_nearest_crossing(nodes: Seq<TreeNode>, a: Point, b: Point, p: Point) -> bool {
    is_crossing(nodes, a, b, p) && forall|q: Point| #[trigger]
        is_crossing(nodes, a, b, q) ==> dist2(p, a) <= dist2(q, a)
}

/// `b` is `c` with its end clipped where it first runs into one of `nodes`;
/// a clipped segment gets the depth at which growth stops.
pub open spec fn clipped(nodes: Seq<TreeNode>, c: TreeNode, b: TreeNode) -> bool {
    &&& b.start == c.start
    &&& b.last_drawn_end == c.last_drawn_end
    &&& b.fully_drawn == c.fully_drawn
    &&& b.growth_length == c.growth_length
    &&& b.grow_speed == c.grow_speed
    &&& b.limb_length == c.limb_length
    &&& b.split_theta_range == c.split_theta_range
    &&& b.max_tree_depth == c.max_tree_depth
    &&& b.split_count == c.split_count
    &&& b.children@ == c.children@
    &&& if exists|p: Point| is_crossing(nodes, c.start, c.end, p) {
        is_nearest_crossing(nodes, c.start, c.end, b.end) && b.depth == c.max_tree_depth
    } else {
        b.end == c.end && b.depth == c.depth
    }
}

/// What a tick may do to a segment that already existed: its position and
/// depth stay; growth never shrinks; children, once there,
/// stay as they are, and they appear only as growth reaches the whole.
pub open spec fn grown_from(a: TreeNode, b: TreeNode) -> bool {
    &&& b.start == a.start
    &&& b.end == a.end
    &&& b.depth == a.depth
    &&& a.growth_length <= b.growth_length
    &&& a.children@.len() > 0 ==> b.children@ == a.children@
    &&& a.children@.len() == 0 && b.children@.len() > 0 ==> a.growth_length < GROWTH_FULL
        && b.growth_length == GROWTH_FULL
}

/// A leaf whose growth reaches the whole with this step, below its depth
/// limit, and whose start lies in `[-1/2, 1/2]^2`: it splits.
pub open spec fn splits_due(n: TreeNode) -> bool {
    &&& n.children@.len() == 0
    &&& n.growth_length < GROWTH_FULL
    &&& n.growth_length + n.grow_speed >= GROWTH_FULL
    &&& n.depth < n.max_tree_depth
    &&& -HALF_UNIT <= n.start.x <= HALF_UNIT
    &&& -HALF_UNIT <= n.start.y <= HALF_UNIT
}

/// The growth of `n` after its step: a leaf advances by its speed, up to
/// the whole; a segment with children keeps its growth.
pub open spec fn stepped_growth(n: TreeNode) -> int {
    if n.children@.len() == 0 {
        if n.growth_length + n.grow_speed > GROWTH_FULL {
            GROWTH_FULL as int
        } else {
            n.growth_length + n.grow_speed
        }
    } else {
        n.growth_length as int
    }
}

/// `b` is `a` after its growth step in a pass: its growth advanced as
/// `stepped_growth` says; children are only added, and only when a split is
/// due, then `split_count` of them unless the arena is `full`.
pub open spec fn stepped(a: TreeNode, b: TreeNode, full: bool) -> bool {
    &&& b.growth_length == stepped_growth(a)
    &&& b.start == a.start
    &&& b.end == a.end
    &&& b.last_drawn_end == a.last_drawn_end
    &&& b.fully_drawn == a.fully_drawn
    &&& b.depth == a.depth
    &&& b.grow_speed == a.grow_speed
    &&& b.limb_length == a.limb_length
    &&& b.split_theta_range == a.split_theta_range
    &&& b.max_tree_depth == a.max_tree_depth
    &&& b.split_count == a.split_count
    &&& !splits_due(a) ==> b.children@ == a.children@
    &&& splits_due(a) ==> b.children@.len() <= a.split_count && (b.children@.len()
        == a.split_count || full)
}

/// `child` has the shape that a split of `parent` gives: it starts at the
/// parent's end with parameters drawn in range; unless a crossing clipped it,
/// which leaves it at the depth where growth stops, it ends where the
/// parent's direction turned by a drift from the parent's range takes it,
/// one limb length on, and its depth is the parent's or one more.
pub open spec fn split_shape(parent: TreeNode, child: TreeNode) -> bool {
    &&& child.start == parent.end
    &&& GROW_SPEED_MIN <= child.grow_speed < GROW_SPEED_MAX
    &&& LIMB_LENGTH_MIN <= child.limb_length < LIMB_LENGTH_MAX
    &&& child.split_theta_range == DEFAULT_THETA_RANGE
    &&& child.max_tree_depth == DEFAULT_MAX_TREE_DEPTH
    &&& child.split_count == DEFAULT_SPLIT_COUNT
    &&& (child.depth == child.max_tree_depth || exists|s1: u64, s2: u64|
        child.end == candidate_end(
            parent.start,
            parent.end,
            parent.limb_length as int,
            #[trigger] drift_of(parent.split_theta_range as int, s2),
        ) && child.depth == parent.depth + #[trigger] depth_step(s1))
}

/// `split_shape` depends only on the fields it names.
proof fn lemma_split_shape_congruent(p1: TreeNode, c1: TreeNode, p2: TreeNode, c2: TreeNode)
    requires
        split_shape(p1, c1),
        p1.start == p2.start,
        p1.end == p2.end,
        p1.limb_length == p2.limb_length,
        p1.split_theta_range == p2.split_theta_range,
        p1.depth == p2.depth,
        c1.start == c2.start,
        c1.end == c2.end,
        c1.depth == c2.depth,
        c1.grow_speed == c2.grow_speed,
        c1.limb_length == c2.limb_length,
        c1.split_theta_range == c2.split_theta_range,
        c1.max_tree_depth == c2.max_tree_depth,
        c1.split_count == c2.split_count,
    ensures
        split_shape(p2, c2),
{
    if c1.depth != c1.max_tree_depth {
        let (s1, s2) = choose|s1: u64, s2: u64|
            c1.end == candidate_end(
                p1.start,
                p1.end,
                p1.limb_length as int,
                #[trigger] drift_of(p1.split_theta_range as int, s2),
            ) && c1.depth == p1.depth + #[trigger] depth_step(s1);
        assert(c2.end == candidate_end(
            p2.start,
            p2.end,
            p2.limb_length as int,
            drift_of(p2.split_theta_range as int, s2),
        ) && c2.depth == p2.depth + depth_step(s1));
    }
}

/// Segment `n` of `b`, which `a` did not have, was made in a growth pass
/// over the subtree at `index` of `a`: by a split of a segment `p` below
/// `index` that was due to split; it starts at `p`'s end, has no children,
/// and has been grown once, by its own speed, in that same pass.
pub open spec fn made_by_split(a: State, b: State, index: int, n: int) -> bool {
    let p = b.parents@[n];
    &&& 0 <= p < a.len()
    &&& descends(a.parents@, p, index)
    &&& splits_due(a.node(p))
    &&& b.node(n).start == a.node(p).end
    &&& b.node(n).children@.len() == 0
    &&& b.node(n).growth_length == b.node(n).grow_speed
    &&& GROW_SPEED_MIN <= b.node(n).grow_speed < GROW_SPEED_MAX
    &&& split_shape(a.node(p), b.node(n))
}

/// Segment `n` of `s` is new since `entry` and stands as `made_by_split`
/// says, except that it may not have been grown yet.
spec fn new_segment_ok(entry: State, s: State, index: int, n: int) -> bool {
    let p = s.parents@[n];
    &&& 0 <= p < entry.len()
    &&& descends(entry.parents@, p, index)
    &&& splits_due(entry.node(p))
    &&& s.node(n).start == entry.node(p).end
    &&& s.node(n).children@.len() == 0
    &&& GROW_SPEED_MIN <= s.node(n).grow_speed < GROW_SPEED_MAX
    &&& (s.node(n).growth_length == 0 || s.node(n).growth_length == s.node(n).grow_speed)
    &&& split_shape(entry.node(p), s.node(n))
}

/// A step is what a tick may do to a segment.
pub proof fn lemma_stepped_is_grown(a: TreeNode, b: TreeNode, full: bool)
    requires
        a.wf(),
        stepped(a, b, full),
    ensures
        grown_from(a, b),
{
}

/// The depth increment a split draws from a generator state: a draw from
/// `[0.45, 1)` rounded to the nearest integer.
pub open spec fn depth_step(state: u64) -> int {
    if scaled(45_000, 100_000, state) >= 50_000 {
        1
    } else {
        0
    }
}

/// The angle drift a split draws, from `[-range/2, range/2)`.
pub open spec fn drift_of(range: int, state: u64) -> int {
    scaled(-(range / 2), range - range / 2, state)
}

/// Ticks compose: what one tick may do to a segment, any run of ticks may
/// do; so growth never shrinks, never passes the whole, and children appear
/// at most once, as growth first reaches the whole.
pub proof fn lemma_grown_trans(a: TreeNode, b: TreeNode, c: TreeNode)
    requires
        grown_from(a, b),
        grown_from(b, c),
        c.wf(),
    ensures
        grown_from(a, c),
{
}

/// The child that splitting `parent` makes before any clipping: a depth
/// increment is drawn, then an angle drift, then the child's own parameters.
fn split_candidate(parent: &TreeNode, rng: &mut Rng) -> (c: TreeNode)
    requires
        parent.wf(),
        old(rng).wf(),
        parent.depth < i32::MAX,
    ensures
        final(rng).wf(),
        c.wf(),
        c.children@.len() == 0,
        c.growth_length == 0,
        !c.fully_drawn,
        c.start == parent.end,
        c.last_drawn_end == parent.end,
        GROW_SPEED_MIN <= c.grow_speed < GROW_SPEED_MAX,
        LIMB_LENGTH_MIN <= c.limb_length < LIMB_LENGTH_MAX,
        c.split_theta_range == DEFAULT_THETA_RANGE,
        c.max_tree_depth == DEFAULT_MAX_TREE_DEPTH,
        c.split_count == DEFAULT_SPLIT_COUNT,
        ({
            let s1 = next_state(old(rng).state);
            let s2 = next_state(s1);
            let s3 = next_state(s2);
            let s4 = next_state(s3);
            &&& final(rng).state == s4
            &&& c.grow_speed == scaled(GROW_SPEED_MIN as int, GROW_SPEED_MAX as int, s3)
            &&& c.limb_length == scaled(LIMB_LENGTH_MIN as int, LIMB_LENGTH_MAX as int, s4)
            &&& c.end == candidate_end(
                parent.start,
                parent.end,
                parent.limb_length as int,
                drift_of(parent.split_theta_range as int, s2),
            )
            &&& c.depth == parent.depth + depth_step(s1)
        }),
{
    let range = parent.split_theta_range;
    let step = rng.uniform(45_000, 100_000);
    let inc: i32 = if step >= 50_000 {
        1
    } else {
        0
    };
    let drift = rng.uniform(-(range / 2), range - range / 2);
    let new_end = child_end(parent.start, parent.end, parent.limb_length, drift);
    let end = parent.end;
    TreeNode::new(end.x, end.y, new_end.x, new_end.y, parent.depth + inc, rng)
}

impl State {
    /// In a well-formed tree, a lookup with a segment's rectangle offers
    /// every segment that it crosses.
    pub proof fn lemma_crossing_is_offered(self, a: Point, b: Point, j: int)
        requires
            self.wf(),
            0 <= j < self.len(),
            intersection(a, b, self.node(j).start, self.node(j).end) is Some,
        ensures
            indexed_near(self.r_tree, corners_rect(a, b), j),
    {
        lemma_crossing_overlaps(a, b, self.node(j).start, self.node(j).end);
        assert(index_covers(self.r_tree, j, self.node(j)));
        let e = choose|e: (Rect, usize)|
            #![trigger index_entries(self.r_tree).contains(e)]
            index_entries(self.r_tree).contains(e) && e.1 == j && e.0.covers(
                corners_rect(self.node(j).start, self.node(j).end),
            );
    }

    /// In a well-formed tree, the crossings that the index offers for a
    /// segment are all of its crossings.
    pub proof fn lemma_hits_are_crossings(self, a: Point, b: Point)
        requires
            self.wf(),
        ensures
            forall|p: Point|
                #![trigger is_hit(self.nodes@, self.r_tree, a, b, p)]
                #![trigger is_crossing(self.nodes@, a, b, p)]
                is_hit(self.nodes@, self.r_tree, a, b, p) == is_crossing(self.nodes@, a, b, p),
    {
        assert forall|p: Point| is_crossing(self.nodes@, a, b, p) implies is_hit(
            self.nodes@,
            self.r_tree,
            a,
            b,
            p,
        ) by {
            let j = choose|j: int|
                0 <= j < self.nodes@.len() && #[trigger] intersection(
                    a,
                    b,
                    self.nodes@[j].start,
                    self.nodes@[j].end,
                ) == Some(p);
            lemma_crossing_overlaps(a, b, self.node(j).start, self.node(j).end);
            assert(index_covers(self.r_tree, j, self.node(j)));
            let e = choose|e: (Rect, usize)|
                #![trigger index_entries(self.r_tree).contains(e)]
                index_entries(self.r_tree).contains(e) && e.1 == j && e.0.covers(
                    corners_rect(self.node(j).start, self.node(j).end),
                );
            assert(indexed_near(self.r_tree, corners_rect(a, b), j));
        }
    }

    /// The points where `candidate` crosses the segments, one for each
    /// segment it crosses: the index offers those whose rectangles overlap
    /// the candidate's, and those include every segment it crosses.
    #[verifier::loop_isolation(false)]
    pub fn find_intersecting_points(&self, candidate: &TreeNode) -> (r: Vec<Point>)
        requires
            self.wf(),
            candidate.wf(),
        ensures
            forall|k: int|
                0 <= k < r@.len() ==> is_crossing(
                    self.nodes@,
                    candidate.start,
                    candidate.end,
                    #[trigger] r@[k],
                ) && r@[k].in_range() && between(r@[k], candidate.start, candidate.end),
            forall|p: Point| is_crossing(self.nodes@, candidate.start, candidate.end, p) ==> r@.contains(p),
            exists|order: Seq<usize>|
                #[trigger] crossing_listing(self.nodes@, candidate.start, candidate.end, order, r@),
    {
        let rect = Rect::from_corners(candidate.start, candidate.end);
        let ids = self.r_tree.lookup_in_rectangle(rect);
        let mut out: Vec<Point> = Vec::new();
        let ghost mut order: Seq<usize> = Seq::empty();
        let mut i: usize = 0;
        proof {
            assert(tags_unique(index_entries(self.r_tree)));
        }
        while i < ids.len()
            invariant
                order.no_duplicates(),
                order.len() == out@.len(),
                forall|k: int|
                    0 <= k < order.len() ==> #[trigger] order[k] < self.len() && intersection(
                        candidate.start,
                        candidate.end,
                        self.node(order[k] as int).start,
                        self.node(order[k] as int).end,
                    ) == Some(out@[k]),
                forall|k: int|
                    0 <= k < order.len() ==> exists|m: int|
                        0 <= m < i && #[trigger] ids@[m] == #[trigger] order[k],
                forall|m: int|
                    0 <= m < i && (intersection(
                        candidate.start,
                        candidate.end,
                        self.node(ids@[m] as int).start,
                        self.node(ids@[m] as int).end,
                    ) is Some) ==> order.contains(#[trigger] ids@[m]),
                self.wf(),
                candidate.wf(),
                rect == corners_rect(candidate.start, candidate.end),
                rect.wf(),
                0 <= i <= ids@.len(),
                forall|k: int|
                    0 <= k < out@.len() ==> is_hit(
                        self.nodes@,
                        self.r_tree,
                        candidate.start,
                        candidate.end,
                        #[trigger] out@[k],
                    ) && out@[k].in_range() && between(out@[k], candidate.start, candidate.end),
                forall|k: int|
                    #![trigger ids@[k]]
                    0 <= k < i ==> (intersection(
                        candidate.start,
                        candidate.end,
                        self.node(ids@[k] as int).start,
                        self.node(ids@[k] as int).end,
                    ) matches Some(p) ==> out@.contains(p)),
            decreases ids@.len() - i,
        {
            let j = ids[i];
            proof {
                let e = choose|e: (Rect, usize)|
                    #![trigger index_entries(self.r_tree).contains(e)]
                    index_entries(self.r_tree).contains(e) && e.0.overlaps(rect) && e.1 == ids@[i as int];
                assert(index_entries(self.r_tree).contains(e));
                assert(self.node(j as int).wf());
            }
            let hit = candidate.intersects(&self.nodes[j]);
            if let Some(p) = hit {
                proof {
                    assert(indexed_near(self.r_tree, rect, j as int));
                    assert(is_hit(self.nodes@, self.r_tree, candidate.start, candidate.end, p));
                }
                let ghost before = out@;
                let ghost order_before = order;
                out.push(p);
                proof {
                    order = order.push(j);
                    assert forall|k: int| 0 <= k < order_before.len() implies order_before[k] != j by {
                        let m = choose|m: int| 0 <= m < i && #[trigger] ids@[m] == #[trigger] order_before[k];
                        assert(ids@[m] != ids@[i as int]);
                    }
                    assert(order.no_duplicates()) by {
                        assert forall|x: int, y: int|
                            0 <= x < order.len() && 0 <= y < order.len() && x != y implies order[x]
                            != order[y] by {
                            if x < order_before.len() && y < order_before.len() {
                            } else if x < order_before.len() {
                            } else {
                            }
                        }
                    }
                    assert forall|k: int| 0 <= k < order.len() implies exists|m: int|
                        0 <= m < i + 1 && #[trigger] ids@[m] == #[trigger] order[k] by {
                        if k < order_before.len() {
                            let m = choose|m: int| 0 <= m < i && #[trigger] ids@[m] == #[trigger] order_before[k];
                            assert(ids@[m] == order[k]);
                        } else {
                            assert(ids@[i as int] == order[k]);
                        }
                    }
                    assert forall|m: int|
                        0 <= m < i + 1 && (intersection(
                            candidate.start,
                            candidate.end,
                            self.node(ids@[m] as int).start,
                            self.node(ids@[m] as int).end,
                        ) is Some) implies order.contains(#[trigger] ids@[m]) by {
                        if m < i {
                            assert(order_before.contains(ids@[m]));
                            let t = choose|t: int| 0 <= t < order_before.len() && order_before[t] == ids@[m];
                            assert(order[t] == ids@[m]);
                        } else {
                            assert(order[order.len() - 1] == ids@[m]);
                        }
                    }
                    assert(out@[out@.len() - 1] == p);
                    assert forall|q: Point| before.contains(q) implies out@.contains(q) by {
                        let m = choose|m: int| 0 <= m < before.len() && before[m] == q;
                        assert(out@[m] == q);
                    }
                }
            }
            i = i + 1;
        }
        proof {
            assert forall|j: int|
                0 <= j < self.nodes@.len() && (#[trigger] intersection(
                    candidate.start,
                    candidate.end,
                    self.nodes@[j].start,
                    self.nodes@[j].end,
                )) is Some implies order.contains(j as usize) by {
                self.lemma_crossing_is_offered(candidate.start, candidate.end, j);
                let e = choose|e: (Rect, usize)|
                    #![trigger index_entries(self.r_tree).contains(e)]
                    index_entries(self.r_tree).contains(e) && e.0.overlaps(rect) && e.1 == j;
                assert(ids@.contains(e.1));
                let m = choose|m: int| 0 <= m < ids@.len() && ids@[m] == e.1;
                assert(ids@[m] == j);
            }
            assert(crossing_listing(self.nodes@, candidate.start, candidate.end, order, out@));
            self.lemma_hits_are_crossings(candidate.start, candidate.end);
            assert forall|p: Point| is_hit(self.nodes@, self.r_tree, candidate.start, candidate.end, p) implies out@.contains(p) by {
                let j = choose|j: int|
                    0 <= j < self.len() && #[trigger] indexed_near(self.r_tree, rect, j) && intersection(
                        candidate.start,
                        candidate.end,
                        self.node(j).start,
                        self.node(j).end,
                    ) == Some(p);
                let e = choose|e: (Rect, usize)|
                    #![trigger index_entries(self.r_tree).contains(e)]
                    index_entries(self.r_tree).contains(e) && e.0.overlaps(rect) && e.1 == j;
                assert(ids@.contains(e.1));
                let k = choose|k: int| 0 <= k < ids@.len() && ids@[k] == e.1;
                assert(ids@[k] == j);
            }
        }
        out
    }

    /// Appends `candidate` as the last child of `parent`, its end clipped
    /// to the nearest point where it runs into an existing segment, in which
    /// case it gets the depth at which growth stops. The index keeps the
    /// candidate's rectangle from before the clip, which holds the clipped
    /// segment; returns the new index.
    pub fn attach_child(&mut self, parent: usize, candidate: TreeNode) -> (r: usize)
        requires
            old(self).wf(),
            parent < old(self).len(),
            old(self).len() < MAX_SEGMENTS,
            candidate.wf(),
            candidate.children@.len() == 0,
        ensures
            final(self).wf(),
            r == old(self).len(),
            final(self).len() == old(self).len() + 1,
            clipped(old(self).nodes@, candidate, final(self).node(r as int)),
            forall|j: int|
                0 <= j < old(self).len() && j != parent ==> #[trigger] final(self).node(j) == old(
                    self,
                ).node(j),
            same_but_children(old(self).node(parent as int), final(self).node(parent as int)),
            final(self).node(parent as int).children@ == old(self).node(
                parent as int,
            ).children@.push(r),
            index_entries(final(self).r_tree) == index_entries(old(self).r_tree).insert(
                (corners_rect(candidate.start, candidate.end), r),
            ),
            final(self).rng == old(self).rng,
            final(self).force_redraw == old(self).force_redraw,
            final(self).parents@ == old(self).parents@.push(parent as int),
    {
        let ghost pre = *self;
        let intersections = self.find_intersecting_points(&candidate);
        let nearest = candidate.find_nearest_intersection(intersections);
        let rect = Rect::from_corners(candidate.start, candidate.end);
        let mut node = candidate;
        match nearest {
            Some(p) => {
                node.end = p;
                node.depth = node.max_tree_depth;
            },
            None => {},
        }
        proof {
            match nearest {
                Some(p) => {
                    let k = choose|k: int|
                        0 <= k < intersections@.len() && intersections@[k] == p && (forall|j: int|
                            0 <= j < intersections@.len() ==> dist2(p, candidate.start) <= dist2(
                                #[trigger] intersections@[j],
                                candidate.start,
                            )) && (forall|j: int|
                            0 <= j < k ==> dist2(p, candidate.start) < dist2(
                                #[trigger] intersections@[j],
                                candidate.start,
                            ));
                    assert(is_crossing(pre.nodes@, candidate.start, candidate.end, intersections@[k]));
                    assert(between(p, candidate.start, candidate.end));
                    assert forall|q: Point| #[trigger] is_crossing(pre.nodes@, candidate.start, candidate.end, q) implies dist2(
                        p,
                        candidate.start,
                    ) <= dist2(q, candidate.start) by {
                        assert(intersections@.contains(q));
                        let m = choose|m: int|
                            0 <= m < intersections@.len() && intersections@[m] == q;
                        assert(dist2(p, candidate.start) <= dist2(intersections@[m], candidate.start));
                    }
                },
                None => {
                    assert forall|p: Point| !is_crossing(pre.nodes@, candidate.start, candidate.end, p) by {
                        if is_crossing(pre.nodes@, candidate.start, candidate.end, p) {
                            assert(intersections@.contains(p));
                        }
                    }
                },
            }
        }
        self.push_child(parent, node, rect)
    }

    /// Splits segment `index` once: draws a depth increment and an angle
    /// drift, then attaches a child from the segment's end along its
    /// direction turned by the drift, whose own parameters are drawn next.
    /// Nothing changes once the arena is full.
    pub fn split(&mut self, index: usize)
        requires
            old(self).wf(),
            index < old(self).len(),
            old(self).node(index as int).depth < i32::MAX,
        ensures
            final(self).wf(),
            final(self).force_redraw == old(self).force_redraw,
            forall|t: int|
                0 <= t < old(self).len() ==> #[trigger] final(self).parents@[t] == old(
                    self,
                ).parents@[t],
            old(self).len() == MAX_SEGMENTS ==> *final(self) == *old(self),
            old(self).len() < MAX_SEGMENTS ==> {
                let parent = old(self).node(index as int);
                let n = old(self).len();
                let s1 = next_state(old(self).rng.state);
                let s2 = next_state(s1);
                let end = candidate_end(
                    parent.start,
                    parent.end,
                    parent.limb_length as int,
                    drift_of(parent.split_theta_range as int, s2),
                );
                let s3 = next_state(s2);
                let s4 = next_state(s3);
                let child = final(self).node(n);
                &&& final(self).len() == n + 1
                &&& final(self).rng.state == s4
                &&& final(self).parents@ == old(self).parents@.push(index as int)
                &&& index_entries(final(self).r_tree) == index_entries(old(self).r_tree).insert(
                    (corners_rect(parent.end, end), n as usize),
                )
                &&& child.last_drawn_end == child.start
                &&& GROW_SPEED_MIN <= child.grow_speed < GROW_SPEED_MAX
                &&& child.grow_speed == scaled(GROW_SPEED_MIN as int, GROW_SPEED_MAX as int, s3)
                &&& child.limb_length == scaled(LIMB_LENGTH_MIN as int, LIMB_LENGTH_MAX as int, s4)
                &&& child.split_theta_range == DEFAULT_THETA_RANGE
                &&& child.max_tree_depth == DEFAULT_MAX_TREE_DEPTH
                &&& child.split_count == DEFAULT_SPLIT_COUNT
                &&& split_shape(parent, child)
                &&& forall|j: int|
                    0 <= j < n && j != index ==> #[trigger] final(self).node(j) == old(self).node(j)
                &&& same_but_children(parent, final(self).node(index as int))
                &&& final(self).node(index as int).children@ == parent.children@.push(n as usize)
                &&& child.start == parent.end
                &&& child.children@.len() == 0
                &&& child.growth_length == 0
                &&& !child.fully_drawn
                &&& if exists|p: Point| is_crossing(old(self).nodes@, parent.end, end, p) {
                    is_nearest_crossing(old(self).nodes@, parent.end, end, child.end)
                        && child.depth == child.max_tree_depth
                } else {
                    child.end == end && child.depth == parent.depth + depth_step(s1)
                }
            },
    {
        if self.nodes.len() >= MAX_SEGMENTS {
            return ;
        }
        proof {
            assert(self.node(index as int).wf());
        }
        let mut rng = self.rng;
        let candidate = split_candidate(&self.nodes[index], &mut rng);
        let ghost before = *self;
        self.rng = rng;
        proof {
            before.lemma_wf_same_parts(*self);
        }
        let n = self.attach_child(index, candidate);
        proof {
            let s1 = next_state(before.rng.state);
            let s2 = next_state(s1);
            let child = self.node(n as int);
            if child.depth != child.max_tree_depth {
                assert(child.end == candidate_end(
                    before.node(index as int).start,
                    before.node(index as int).end,
                    before.node(index as int).limb_length as int,
                    drift_of(before.node(index as int).split_theta_range as int, s2),
                ) && child.depth == before.node(index as int).depth + depth_step(s1));
            }
        }
    }

    /// A copy of the children of segment `index`.
    pub(crate) fn children_of(&self, index: usize) -> (r: Vec<usize>)
        requires
            index < self.len(),
        ensures
            r@ == self.node(index as int).children@,
    {
        let mut r: Vec<usize> = Vec::new();
        let n = self.nodes[index].children.len();
        let mut t: usize = 0;
        while t < n
            invariant
                index < self.len(),
                n == self.node(index as int).children@.len(),
                t <= n,
                r@ == self.node(index as int).children@.subrange(0, t as int),
            decreases n - t,
        {
            r.push(self.nodes[index].children[t]);
            t = t + 1;
            proof {
                assert(r@ =~= self.node(index as int).children@.subrange(0, t as int));
            }
        }
        proof {
            assert(r@ =~= self.node(index as int).children@);
        }
        r
    }

    /// One growth pass over the subtree at `index`, in pre-order. A leaf
    /// advances its growth by its speed, up to the whole; a leaf whose growth
    /// has just reached the whole, below its depth limit, and whose start lies
    /// in `[-1/2, 1/2]^2`, splits `split_count` times. Then each child, those
    /// just made included, grows in turn. Segments outside the subtree are
    /// left as they are. Once the arena holds `MAX_SEGMENTS` segments, splits
    /// stop making children: `stepped` then allows fewer than `split_count`.
    /// Every segment made is a child of a split that was due, starts at its
    /// parent's end, and has been grown once in this pass.
    pub fn grow(&mut self, index: usize)
        requires
            old(self).wf(),
            index < old(self).len(),
        ensures
            final(self).wf(),
            old(self).len() <= final(self).len(),
            final(self).force_redraw == old(self).force_redraw,
            forall|t: int|
                0 <= t < old(self).len() ==> #[trigger] final(self).parents@[t] == old(
                    self,
                ).parents@[t],
            forall|j: int|
                0 <= j < old(self).len() ==> if descends(old(self).parents@, j, index as int) {
                    stepped(
                        old(self).node(j),
                        #[trigger] final(self).node(j),
                        final(self).len() == MAX_SEGMENTS,
                    )
                } else {
                    final(self).node(j) == old(self).node(j)
                },
            forall|j: int|
                0 <= j < old(self).len() ==> grown_from(
                    #[trigger] old(self).node(j),
                    final(self).node(j),
                ),
            forall|n: int|
                old(self).len() <= n < final(self).len() ==> #[trigger] made_by_split(
                    *old(self),
                    *final(self),
                    index as int,
                    n,
                ),
        decreases MAX_SEGMENTS - old(self).len(), MAX_SEGMENTS - index,
    {
        let ghost entry = *self;
        proof {
            assert(entry.len() == old(self).len());
            assert(self.node(index as int).wf());
        }
        if self.nodes[index].children.len() == 0 {
            let old_growth = self.nodes[index].growth_length;
            let speed = self.nodes[index].grow_speed;
            let g = if old_growth + speed > GROWTH_FULL {
                GROWTH_FULL
            } else {
                old_growth + speed
            };
            self.nodes[index].growth_length = g;
            proof {
                assert forall|i: int| 0 <= i < self.len() implies (#[trigger] self.node(i)).wf() by {
                    assert(entry.node(i).wf());
                }
                assert forall|i: int, k: int|
                    0 <= i < self.len() && 0 <= k < self.node(i).children@.len() implies i
                        < #[trigger] self.node(i).children@[k] < self.len() && self.parents@[self.node(
                        i,
                    ).children@[k] as int] == i by {
                    assert(entry.node(i).children@[k] == self.node(i).children@[k]);
                }
                assert forall|j: int| 0 < j < self.len() implies 0 <= #[trigger] self.parents@[j]
                    < j && self.node(self.parents@[j]).children@.contains(j as usize) by {
                    assert(entry.node(entry.parents@[j]).children@.contains(j as usize));
                }
                assert forall|j: int| 0 <= j < self.len() implies #[trigger] index_covers(
                    self.r_tree,
                    j,
                    self.node(j),
                ) by {
                    assert(index_covers(entry.r_tree, j, entry.node(j)));
                    assert(corners_rect(self.node(j).start, self.node(j).end) == corners_rect(
                        entry.node(j).start,
                        entry.node(j).end,
                    ));
                }
                assert forall|i: int, m: int, n: int|
                    0 <= i < self.len() && 0 <= m < n < self.node(i).children@.len() implies #[trigger] self.node(
                        i,
                    ).children@[m] < #[trigger] self.node(i).children@[n] by {
                    assert(entry.node(i).children@[m] < entry.node(i).children@[n]);
                }
            }
            let start = self.nodes[index].start;
            if g == GROWTH_FULL && old_growth < GROWTH_FULL && self.nodes[index].depth
                < self.nodes[index].max_tree_depth && -HALF_UNIT <= start.x && start.x <= HALF_UNIT
                && -HALF_UNIT <= start.y && start.y <= HALF_UNIT {
                let count = self.nodes[index].split_count;
                let mut k: i32 = 0;
                while k < count
                    invariant
                        self.wf(),
                        index < self.len(),
                        entry.len() <= self.len(),
                        0 <= k <= count,
                        count == entry.node(index as int).split_count,
                        self.force_redraw == entry.force_redraw,
                        splits_due(entry.node(index as int)),
                        self.node(index as int).growth_length == GROWTH_FULL,
                        same_but_children(
                            TreeNode { growth_length: GROWTH_FULL, ..entry.node(index as int) },
                            self.node(index as int),
                        ),
                        self.node(index as int).children@.len() <= k,
                        self.node(index as int).children@.len() == k || self.len() == MAX_SEGMENTS,
                        self.node(index as int).children@.len() == self.len() - entry.len(),
                        forall|m: int|
                            0 <= m < self.node(index as int).children@.len() ==> #[trigger] self.node(
                                index as int,
                            ).children@[m] == entry.len() + m,
                        forall|n: int|
                            entry.len() <= n < self.len() ==> #[trigger] self.parents@[n]
                                == index as int,
                        forall|n: int|
                            entry.len() <= n < self.len() ==> split_shape(
                                entry.node(index as int),
                                #[trigger] self.node(n),
                            ),
                        forall|n: int|
                            entry.len() <= n < self.len() ==> (#[trigger] self.node(n)).start
                                == entry.node(index as int).end
                                && self.node(n).children@.len() == 0 && self.node(n).growth_length
                                == 0 && GROW_SPEED_MIN <= self.node(n).grow_speed < GROW_SPEED_MAX,
                        forall|j: int|
                            0 <= j < entry.len() && j != index ==> #[trigger] self.node(j)
                                == entry.node(j),
                        forall|t: int|
                            0 <= t < entry.len() ==> #[trigger] self.parents@[t]
                                == entry.parents@[t],
                    decreases count - k,
                {
                    let ghost before = *self;
                    self.split(index);
                    proof {
                        if before.len() < MAX_SEGMENTS {
                            assert forall|j: int| 0 <= j < entry.len() && j != index implies #[trigger] self.node(
                                j,
                            ) == entry.node(j) by {
                                assert(self.node(j) == before.node(j));
                            }
                        }
                        assert forall|t: int| 0 <= t < entry.len() implies #[trigger] self.parents@[t]
                            == entry.parents@[t] by {
                            assert(self.parents@[t] == before.parents@[t]);
                        }
                        if before.len() < MAX_SEGMENTS {
                            assert forall|m: int|
                                0 <= m < self.node(index as int).children@.len() implies #[trigger] self.node(
                                    index as int,
                                ).children@[m] == entry.len() + m by {
                                if m < before.node(index as int).children@.len() {
                                    assert(self.node(index as int).children@[m] == before.node(
                                        index as int,
                                    ).children@[m]);
                                }
                            }
                            assert forall|n: int| entry.len() <= n < self.len() implies #[trigger] self.parents@[n]
                                == index as int by {
                                if n < before.len() {
                                    assert(self.parents@[n] == before.parents@[n]);
                                }
                            }
                            assert forall|n: int| entry.len() <= n < self.len() implies (#[trigger] self.node(n)).start == entry.node(
                                index as int,
                            ).end && self.node(n).children@.len() == 0
                                && self.node(n).growth_length == 0 && GROW_SPEED_MIN
                                <= self.node(n).grow_speed < GROW_SPEED_MAX by {
                                if n < before.len() {
                                    assert(self.node(n) == before.node(n));
                                    assert(self.parents@[n] == before.parents@[n]);
                                } else {
                                    assert(n == before.len());
                                    assert(self.parents@[n] == index as int);
                                    assert(self.node(n).children@.len() == 0);
                                    assert(self.node(n).growth_length == 0);
                                    assert(GROW_SPEED_MIN <= self.node(n).grow_speed);
                                    assert(self.node(n).grow_speed < GROW_SPEED_MAX);
                                    assert(self.node(n).start == before.node(index as int).end);
                                    assert(before.node(index as int).end == entry.node(
                                        index as int,
                                    ).end);
                                }
                            }
                            assert forall|n: int| entry.len() <= n < self.len() implies split_shape(
                                entry.node(index as int),
                                #[trigger] self.node(n),
                            ) by {
                                if n < before.len() {
                                    assert(self.node(n) == before.node(n));
                                } else {
                                    lemma_split_shape_congruent(
                                        before.node(index as int),
                                        self.node(n),
                                        entry.node(index as int),
                                        self.node(n),
                                    );
                                }
                            }
                        } else {
                            assert forall|n: int| entry.len() <= n < self.len() implies #[trigger] self.parents@[n]
                                == index as int by {
                                if n < before.len() {
                                    assert(self.parents@[n] == before.parents@[n]);
                                }
                            }
                            assert forall|n: int| entry.len() <= n < self.len() implies (#[trigger] self.node(n)).start == entry.node(
                                index as int,
                            ).end && self.node(n).children@.len() == 0
                                && self.node(n).growth_length == 0 && GROW_SPEED_MIN
                                <= self.node(n).grow_speed < GROW_SPEED_MAX by {
                                assert(before.node(n) == self.node(n));
                                assert(before.parents@[n] == self.parents@[n]);
                            }
                            assert forall|n: int| entry.len() <= n < self.len() implies split_shape(
                                entry.node(index as int),
                                #[trigger] self.node(n),
                            ) by {
                                assert(before.node(n) == self.node(n));
                            }
                        }
                    }
                    k = k + 1;
                }
            }
        }
        let ghost mid = *self;
        let ghost mp = mid.parents@;
        proof {
            assert(mid.len() > entry.len() ==> splits_due(entry.node(index as int)));
            assert(mid.len() > entry.len() ==> mid.node(index as int).children@.len() == mid.len()
                - entry.len());
            assert(mid.len() > entry.len() ==> forall|m: int|
                0 <= m < mid.node(index as int).children@.len() ==> #[trigger] mid.node(
                    index as int,
                ).children@[m] == entry.len() + m);
            assert forall|n: int| entry.len() <= n < mid.len() implies (#[trigger] mid.node(
                n,
            )).growth_length == 0 by {}
            assert forall|n: int| entry.len() <= n < mid.len() implies new_segment_ok(entry, mid, index as int, n) by {
                assert(mid.node(n) == mid.node(n));
                assert(descends(entry.parents@, index as int, index as int));
            }
            assert(stepped(entry.node(index as int), mid.node(index as int), mid.len() == MAX_SEGMENTS));
            assert forall|j: int| 0 <= j < entry.len() && j != index implies #[trigger] mid.node(j)
                == entry.node(j) by {}
        }
        let children = self.children_of(index);
        let mut k: usize = 0;
        while k < children.len()
            invariant
                self.wf(),
                mid.wf(),
                entry.wf(),
                index < mid.len(),
                entry.len() == old(self).len(),
                entry.len() <= mid.len() <= self.len(),
                mp == mid.parents@,
                self.force_redraw == entry.force_redraw,
                children@ == mid.node(index as int).children@,
                k <= children@.len(),
                forall|t: int| 0 <= t < entry.len() ==> #[trigger] mp[t] == entry.parents@[t],
                forall|t: int| 0 <= t < mid.len() ==> #[trigger] self.parents@[t] == mp[t],
                stepped(entry.node(index as int), self.node(index as int), self.len() == MAX_SEGMENTS),
                forall|j: int|
                    0 <= j < entry.len() && j != index ==> #[trigger] mid.node(j) == entry.node(j),
                forall|j: int|
                    0 <= j < entry.len() && !descends(mp, j, index as int) ==> #[trigger] self.node(j)
                        == entry.node(j),
                forall|m: int, j: int|
                    0 <= m < k && 0 <= j < entry.len() && descends(
                        mp,
                        j,
                        #[trigger] children@[m] as int,
                    ) ==> stepped(
                        entry.node(j),
                        #[trigger] self.node(j),
                        self.len() == MAX_SEGMENTS,
                    ),
                forall|m: int, j: int|
                    k <= m < children@.len() && 0 <= j < entry.len() && descends(
                        mp,
                        j,
                        #[trigger] children@[m] as int,
                    ) ==> #[trigger] self.node(j) == entry.node(j),
                mid.len() > entry.len() ==> children@.len() == mid.len() - entry.len(),
                mid.len() > entry.len() ==> forall|m: int|
                    0 <= m < children@.len() ==> #[trigger] children@[m] == entry.len() + m,
                forall|n: int|
                    entry.len() <= n < self.len() ==> #[trigger] new_segment_ok(entry, *self, index as int, n),
                forall|n: int|
                    entry.len() <= n < self.len() && !(entry.len() + k <= n < mid.len())
                        ==> (#[trigger] self.node(n)).growth_length == self.node(n).grow_speed,
                forall|n: int|
                    entry.len() + k <= n < mid.len() ==> (#[trigger] self.node(n)).growth_length
                        == 0,
            decreases children@.len() - k,
        {
            let c = children[k];
            proof {
                assert(index < mid.node(index as int).children@[k as int] < mid.len());
                assert(index < c < self.len() <= MAX_SEGMENTS);
                mid.lemma_child_below(index as int, k as int);
                assert(MAX_SEGMENTS - self.len() < MAX_SEGMENTS - old(self).len() || (MAX_SEGMENTS
                    - self.len() == MAX_SEGMENTS - old(self).len() && MAX_SEGMENTS - c < MAX_SEGMENTS
                    - index));
            }
            let ghost before = *self;
            self.grow(c);
            proof {
                assert forall|j: int| 0 <= j < entry.len() implies descends(before.parents@, j, c as int)
                    == descends(mp, j, c as int) by {
                    lemma_descends_prefix(mp, before.parents@, j, c as int);
                }
                assert forall|t: int| 0 <= t < mid.len() implies #[trigger] self.parents@[t]
                    == mp[t] by {
                    assert(self.parents@[t] == before.parents@[t]);
                }
                assert(self.node(index as int) == before.node(index as int)) by {
                    if descends(before.parents@, index as int, c as int) {
                        lemma_descends_below(before.parents@, index as int, c as int);
                    }
                }
                assert forall|j: int|
                    0 <= j < entry.len() && !descends(mp, j, index as int) implies #[trigger] self.node(
                    j,
                ) == entry.node(j) by {
                    if descends(mp, j, c as int) {
                        lemma_descends_trans(mp, j, c as int, index as int);
                    }
                }
                assert forall|m: int, j: int|
                    0 <= m < k + 1 && 0 <= j < entry.len() && descends(
                        mp,
                        j,
                        #[trigger] children@[m] as int,
                    ) implies stepped(
                        entry.node(j),
                        #[trigger] self.node(j),
                        self.len() == MAX_SEGMENTS,
                    ) by {
                    if m < k {
                        assert(children@[m] < children@[k as int]) by {
                            crate::arena::lemma_children_increase(mid, index as int, m, k as int);
                        }
                        mid.lemma_siblings_apart(index as int, m, k as int, j);
                    }
                }
                assert forall|m: int, j: int|
                    k + 1 <= m < children@.len() && 0 <= j < entry.len() && descends(
                        mp,
                        j,
                        #[trigger] children@[m] as int,
                    ) implies #[trigger] self.node(j) == entry.node(j) by {
                    assert(children@[k as int] < children@[m]) by {
                        crate::arena::lemma_children_increase(mid, index as int, k as int, m);
                    }
                    mid.lemma_siblings_apart(index as int, m, k as int, j);
                }
            }
            proof {
                assert forall|n: int| entry.len() <= n < self.len() implies #[trigger] new_segment_ok(entry, *self, index as int, n) by {
                    if c >= entry.len() {
                        assert(children@[k as int] == entry.len() + k);
                    }
                    if n < before.len() {
                        assert(new_segment_ok(entry, before, index as int, n));
                        let p = before.parents@[n];
                        assert(self.parents@[n] == p);
                        if n == c {
                            assert(!splits_due(before.node(n)));
                            assert(descends(before.parents@, n, c as int));
                            assert(stepped(before.node(n), self.node(n), self.len() == MAX_SEGMENTS));
                            assert(self.node(n).growth_length == self.node(n).grow_speed);
                            lemma_split_shape_congruent(
                                entry.node(p),
                                before.node(n),
                                entry.node(p),
                                self.node(n),
                            );
                            assert(new_segment_ok(entry, *self, index as int, n));
                        } else {
                            if descends(before.parents@, n, c as int) {
                                assert(0 <= before.parents@[n] < n);
                                assert(descends(before.parents@, p, c as int));
                                if c >= entry.len() {
                                    lemma_descends_below(before.parents@, p, c as int);
                                } else {
                                    lemma_descends_prefix(mp, before.parents@, p, c as int);
                                    assert(before.node(p) == entry.node(p));
                                    assert(before.node(p).children@.contains(n as usize));
                                }
                            }
                            assert(self.node(n) == before.node(n));
                            assert(new_segment_ok(entry, *self, index as int, n));
                        }
                    } else {
                        assert(made_by_split(before, *self, c as int, n));
                        let p = self.parents@[n];
                        if p >= entry.len() {
                            assert(new_segment_ok(entry, before, index as int, p));
                            assert(!splits_due(before.node(p)));
                        }
                        lemma_descends_prefix(mp, before.parents@, p, c as int);
                        assert(before.node(p) == entry.node(p));
                        mid.lemma_child_below(index as int, k as int);
                        lemma_descends_trans(mp, p, c as int, index as int);
                        lemma_descends_prefix(entry.parents@, mp, p, index as int);
                        assert(new_segment_ok(entry, *self, index as int, n));
                    }
                }
                assert forall|n: int|
                    entry.len() <= n < self.len() && !(entry.len() + k + 1 <= n < mid.len()) implies (#[trigger] self.node(
                    n,
                )).growth_length == self.node(n).grow_speed by {
                    if c >= entry.len() {
                        assert(children@[k as int] == entry.len() + k);
                    }
                    if n < before.len() {
                        assert(new_segment_ok(entry, before, index as int, n));
                        let p = before.parents@[n];
                        if n != c {
                            if descends(before.parents@, n, c as int) {
                                assert(0 <= before.parents@[n] < n);
                                assert(descends(before.parents@, p, c as int));
                                if c >= entry.len() {
                                    lemma_descends_below(before.parents@, p, c as int);
                                } else {
                                    lemma_descends_prefix(mp, before.parents@, p, c as int);
                                    assert(before.node(p) == entry.node(p));
                                    assert(before.node(p).children@.contains(n as usize));
                                }
                            }
                            assert(self.node(n) == before.node(n));
                            if entry.len() + k <= n < mid.len() {
                                assert(c < entry.len() || n == c);
                                assert(mid.len() > entry.len());
                                assert(children@[k as int] == entry.len() + k);
                            }
                        } else {
                            assert(descends(before.parents@, n, c as int));
                        }
                    } else {
                        assert(made_by_split(before, *self, c as int, n));
                    }
                }
                assert forall|n: int| entry.len() + k + 1 <= n < mid.len() implies (#[trigger] self.node(
                    n,
                )).growth_length == 0 by {
                    assert(mid.len() > entry.len());
                    assert(children@[k as int] == entry.len() + k);
                    assert(new_segment_ok(entry, before, index as int, n));
                    let p = before.parents@[n];
                    if descends(before.parents@, n, c as int) {
                        assert(0 <= before.parents@[n] < n);
                        assert(descends(before.parents@, p, c as int));
                        lemma_descends_below(before.parents@, p, c as int);
                    }
                    assert(self.node(n) == before.node(n));
                }
            }
            k = k + 1;
        }
        proof {
            assert forall|n: int| entry.len() <= n < self.len() implies #[trigger] made_by_split(
                entry,
                *self,
                index as int,
                n,
            ) by {
                assert(new_segment_ok(entry, *self, index as int, n));
                assert(self.node(n).growth_length == self.node(n).grow_speed);
            }
            assert forall|j: int| 0 <= j < entry.len() implies if descends(
                entry.parents@,
                j,
                index as int,
            ) {
                stepped(entry.node(j), #[trigger] self.node(j), self.len() == MAX_SEGMENTS)
            } else {
                self.node(j) == entry.node(j)
            } by {
                lemma_descends_prefix(entry.parents@, mp, j, index as int);
                if descends(mp, j, index as int) && j != index {
                    lemma_descends_below(mp, j, index as int);
                    mid.lemma_descends_via_child(j, index as int);
                    let m = choose|m: int|
                        0 <= m < mid.node(index as int).children@.len() && descends(
                            mp,
                            j,
                            #[trigger] mid.node(index as int).children@[m] as int,
                        );
                    assert(children@[m] == mid.node(index as int).children@[m]);
                }
            }
            assert forall|j: int| 0 <= j < entry.len() implies grown_from(
                #[trigger] entry.node(j),
                self.node(j),
            ) by {
                assert(entry.node(j).wf());
                lemma_descends_prefix(entry.parents@, mp, j, index as int);
                if descends(entry.parents@, j, index as int) {
                    lemma_stepped_is_grown(entry.node(j), self.node(j), self.len() == MAX_SEGMENTS);
                }
            }
            assert forall|t: int| 0 <= t < entry.len() implies #[trigger] self.parents@[t]
                == entry.parents@[t] by {
                assert(self.parents@[t] == mp[t]);
            }
        }
    }
}

} // verus!
