//! The arena of segments: an append-only vector addressed by index, the
//! spatial index over it, and the invariants that tie the two together.
use crate::random::Rng;
use crate::spatial::{
    tags_unique,
    corners_rect, index_entries, Rect, SpatialIndex, TreeNodeReference, MAX_SEGMENTS,
};
use crate::tree_node::TreeNode;
use vstd::multiset::Multiset;
use vstd::prelude::*;

verus! {

/// Everything that lives from one frame to the next.
pub struct State {
    /// The arena of segments; index 0 is the root.
    pub nodes: Vec<TreeNode>,
    /// Whether the next draw pass redraws every segment from scratch.
    pub force_redraw: bool,
    /// Bounding rectangles of the segments, for intersection lookups.
    pub r_tree: SpatialIndex,
    pub rng: Rng,
    /// The parent of each segment but the root.
    pub parents: Ghost<Seq<int>>,
}

/// Segment `j` lies in the subtree of segment `i`, following `parents`.
pub open spec fn descends(parents: Seq<int>, j: int, i: int) -> bool
    decreases j,
{
    if j == i {
        true
    } else if 0 <= i < j && 0 <= parents[j] < j {
        descends(parents, parents[j], i)
    } else {
        false
    }
}

/// The index holds an entry tagged `j` whose rectangle holds the segment
/// `n`.
pub open spec fn index_covers(ix: SpatialIndex, j: int, n: TreeNode) -> bool {
    exists|e: (Rect, usize)|
        #![trigger index_entries(ix).contains(e)]
        index_entries(ix).contains(e) && e.1 == j && e.0.covers(corners_rect(n.start, n.end))
}

/// All fields of the two segments agree, children aside.
pub open spec fn same_but_children(a: TreeNode, b: TreeNode) -> bool {
    &&& a.start == b.start
    &&& a.end == b.end
    &&& a.last_drawn_end == b.last_drawn_end
    &&& a.fully_drawn == b.fully_drawn
    &&& a.growth_length == b.growth_length
    &&& a.depth == b.depth
    &&& a.grow_speed == b.grow_speed
    &&& a.limb_length == b.limb_length
    &&& a.split_theta_range == b.split_theta_range
    &&& a.max_tree_depth == b.max_tree_depth
    &&& a.split_count == b.split_count
}

impl State {
    pub open spec fn len(&self) -> int {
        self.nodes@.len() as int
    }

    pub open spec fn node(&self, i: int) -> TreeNode {
        self.nodes@[i]
    }

    /// The arena is non-empty and bounded, every segment is well formed,
    /// children come after their parent, every segment but the root is a
    /// child of an earlier one, and the index names only existing segments.
    pub open spec fn wf(&self) -> bool {
        &&& 1 <= self.len() <= MAX_SEGMENTS
        &&& self.rng.wf()
        &&& forall|i: int| 0 <= i < self.len() ==> (#[trigger] self.node(i)).wf()
        &&& forall|i: int, k: int|
            0 <= i < self.len() && 0 <= k < self.node(i).children@.len() ==> i
                < #[trigger] self.node(i).children@[k] < self.len() && self.parents@[self.node(
                i,
            ).children@[k] as int] == i
        &&& forall|i: int, m: int, n: int|
            0 <= i < self.len() && 0 <= m < n < self.node(i).children@.len() ==> #[trigger] self.node(
                i,
            ).children@[m] < #[trigger] self.node(i).children@[n]
        &&& self.parents@.len() == self.len()
        &&& forall|j: int|
            0 < j < self.len() ==> 0 <= #[trigger] self.parents@[j] < j && self.node(
                self.parents@[j],
            ).children@.contains(j as usize)
        &&& forall|e: (Rect, usize)| #[trigger]
            index_entries(self.r_tree).contains(e) ==> e.1 < self.len()
        &&& tags_unique(index_entries(self.r_tree))
        &&& forall|j: int|
            0 <= j < self.len() ==> #[trigger] index_covers(self.r_tree, j, self.node(j))
    }

    /// Well-formedness does not depend on the redraw flag, nor on the
    /// generator beyond its own.
    pub proof fn lemma_wf_same_parts(self, other: State)
        requires
            self.wf(),
            other.nodes@ == self.nodes@,
            other.r_tree == self.r_tree,
            other.parents == self.parents,
            other.rng.wf(),
        ensures
            other.wf(),
    {
        assert forall|i: int| 0 <= i < other.len() implies (#[trigger] other.node(i)).wf() by {
            assert(self.node(i).wf());
        }
        assert forall|i: int, k: int|
            0 <= i < other.len() && 0 <= k < other.node(i).children@.len() implies i
                < #[trigger] other.node(i).children@[k] < other.len() && other.parents@[other.node(
                i,
            ).children@[k] as int] == i by {
            assert(self.node(i).children@[k] == other.node(i).children@[k]);
        }
        assert forall|j: int| 0 < j < other.len() implies 0 <= #[trigger] other.parents@[j] < j
            && other.node(other.parents@[j]).children@.contains(j as usize) by {
            assert(self.node(self.parents@[j]).children@.contains(j as usize));
        }
        assert forall|j: int| 0 <= j < other.len() implies #[trigger] index_covers(
            other.r_tree,
            j,
            other.node(j),
        ) by {
            assert(index_covers(self.r_tree, j, self.node(j)));
        }
        assert forall|i: int, m: int, n: int|
            0 <= i < other.len() && 0 <= m < n < other.node(i).children@.len() implies #[trigger] other.node(
                i,
            ).children@[m] < #[trigger] other.node(i).children@[n] by {
            assert(self.node(i).children@[m] < self.node(i).children@[n]);
        }
    }

    /// Well-formedness survives drawing: only the drawn state of segments
    /// changes.
    pub proof fn lemma_wf_redrawn(self, other: State)
        requires
            self.wf(),
            other.len() == self.len(),
            forall|j: int|
                0 <= j < self.len() ==> (#[trigger] other.node(j)).wf() && other.node(j).children@
                    == self.node(j).children@ && other.node(j).start == self.node(j).start
                    && other.node(j).end == self.node(j).end,
            other.r_tree == self.r_tree,
            other.parents == self.parents,
            other.rng.wf(),
        ensures
            other.wf(),
    {
        assert forall|i: int, k: int|
            0 <= i < other.len() && 0 <= k < other.node(i).children@.len() implies i
                < #[trigger] other.node(i).children@[k] < other.len() && other.parents@[other.node(
                i,
            ).children@[k] as int] == i by {
            assert(self.node(i).children@[k] == other.node(i).children@[k]);
        }
        assert forall|j: int| 0 < j < other.len() implies 0 <= #[trigger] other.parents@[j] < j
            && other.node(other.parents@[j]).children@.contains(j as usize) by {
            assert(self.node(self.parents@[j]).children@.contains(j as usize));
            assert(other.node(other.parents@[j]).children@ == self.node(
                self.parents@[j],
            ).children@);
        }
        assert forall|j: int| 0 <= j < other.len() implies #[trigger] index_covers(
            other.r_tree,
            j,
            other.node(j),
        ) by {
            assert(index_covers(self.r_tree, j, self.node(j)));
            assert(corners_rect(other.node(j).start, other.node(j).end) == corners_rect(
                self.node(j).start,
                self.node(j).end,
            ));
        }
        assert forall|i: int, m: int, n: int|
            0 <= i < other.len() && 0 <= m < n < other.node(i).children@.len() implies #[trigger] other.node(
                i,
            ).children@[m] < #[trigger] other.node(i).children@[n] by {
            assert(self.node(i).children@[m] < self.node(i).children@[n]);
        }
    }

    /// A segment below `i` other than `i` lies below one of `i`'s children.
    pub proof fn lemma_descends_via_child(self, j: int, i: int)
        requires
            self.wf(),
            0 <= i < j < self.len(),
            descends(self.parents@, j, i),
        ensures
            exists|k: int|
                0 <= k < self.node(i).children@.len() && descends(
                    self.parents@,
                    j,
                    #[trigger] self.node(i).children@[k] as int,
                ),
        decreases j,
    {
        let p = self.parents@[j];
        assert(self.node(p).children@.contains(j as usize));
        if p == i {
            let k = choose|k: int|
                0 <= k < self.node(i).children@.len() && self.node(i).children@[k] == j as usize;
            assert(descends(self.parents@, j, self.node(i).children@[k] as int));
        } else {
            assert(descends(self.parents@, p, i));
            lemma_descends_below(self.parents@, p, i);
            self.lemma_descends_via_child(p, i);
            let k = choose|k: int|
                0 <= k < self.node(i).children@.len() && descends(
                    self.parents@,
                    p,
                    #[trigger] self.node(i).children@[k] as int,
                );
            let c = self.node(i).children@[k] as int;
            assert(i < c < self.len());
            lemma_descends_below(self.parents@, p, c);
            assert(descends(self.parents@, j, c));
        }
    }

    /// A child lies below its parent.
    pub proof fn lemma_child_below(self, i: int, k: int)
        requires
            self.wf(),
            0 <= i < self.len(),
            0 <= k < self.node(i).children@.len(),
        ensures
            descends(self.parents@, self.node(i).children@[k] as int, i),
    {
        let c = self.node(i).children@[k] as int;
        assert(i < c && self.parents@[c] == i);
        assert(0 <= self.parents@[c] < c);
        assert(descends(self.parents@, i, i));
    }

    /// Nothing lies below two different children of one segment.
    pub proof fn lemma_siblings_apart(self, i: int, m: int, n: int, j: int)
        requires
            self.wf(),
            0 <= i < self.len(),
            0 <= m < self.node(i).children@.len(),
            0 <= n < self.node(i).children@.len(),
            self.node(i).children@[m] != self.node(i).children@[n],
            descends(self.parents@, j, self.node(i).children@[m] as int),
        ensures
            !descends(self.parents@, j, self.node(i).children@[n] as int),
    {
        let a = self.node(i).children@[m] as int;
        let b = self.node(i).children@[n] as int;
        if descends(self.parents@, j, b) {
            assert(self.parents@[a] == i && self.parents@[b] == i);
            if a <= b {
                lemma_descends_chain(self.parents@, j, a, b);
                assert(descends(self.parents@, i, a));
                lemma_descends_below(self.parents@, i, a);
            } else {
                lemma_descends_chain(self.parents@, j, b, a);
                assert(descends(self.parents@, i, b));
                lemma_descends_below(self.parents@, i, b);
            }
        }
    }

    /// Every segment lies below the root.
    pub proof fn lemma_all_below_root(self, j: int)
        requires
            self.wf(),
            0 <= j < self.len(),
        ensures
            descends(self.parents@, j, 0),
        decreases j,
    {
        if j > 0 {
            self.lemma_all_below_root(self.parents@[j]);
        }
    }

    /// Whether the next tick redraws the whole tree: when the state asks for
    /// it, or when the page was resized.
    pub fn full_redraw_due(&self, is_resized: bool) -> (r: bool)
        ensures
            r == (self.force_redraw || is_resized),
    {
        self.force_redraw || is_resized
    }

    /// The indices of all segments whose bounding rectangle overlaps `q`,
    /// and perhaps of others near it: a lookup in the index, never a scan.
    pub fn segments_near(&self, q: Rect) -> (r: Vec<usize>)
        requires
            self.wf(),
            q.wf(),
        ensures
            forall|j: int|
                0 <= j < self.len() && #[trigger] corners_rect(
                    self.node(j).start,
                    self.node(j).end,
                ).overlaps(q) ==> r@.contains(j as usize),
            forall|k: int| 0 <= k < r@.len() ==> #[trigger] r@[k] < self.len(),
    {
        let r = self.r_tree.lookup_in_rectangle(q);
        proof {
            assert forall|j: int|
                0 <= j < self.len() && #[trigger] corners_rect(
                    self.node(j).start,
                    self.node(j).end,
                ).overlaps(q) implies r@.contains(j as usize) by {
                assert(index_covers(self.r_tree, j, self.node(j)));
                let e = choose|e: (Rect, usize)|
                    #![trigger index_entries(self.r_tree).contains(e)]
                    index_entries(self.r_tree).contains(e) && e.1 == j && e.0.covers(
                        corners_rect(self.node(j).start, self.node(j).end),
                    );
            }
            assert forall|k: int| 0 <= k < r@.len() implies #[trigger] r@[k] < self.len() by {
                let e = choose|e: (Rect, usize)|
                    #![trigger index_entries(self.r_tree).contains(e)]
                    index_entries(self.r_tree).contains(e) && e.0.overlaps(q) && e.1 == r@[k];
            }
        }
        r
    }

    /// A tree holding only `root`, which is in the index; the first draw
    /// is a full one.
    pub fn new(root: TreeNode, rng: Rng) -> (r: State)
        requires
            root.wf(),
            root.children@.len() == 0,
            rng.wf(),
        ensures
            r.wf(),
            r.len() == 1,
            r.node(0) == root,
            r.rng == rng,
            r.force_redraw,
            index_entries(r.r_tree) == Multiset::<(Rect, usize)>::empty().insert(
                (corners_rect(root.start, root.end), 0usize),
            ),
    {
        let mut r_tree = SpatialIndex::new();
        r_tree.insert(Rect::from_corners(root.start, root.end), 0);
        let mut nodes: Vec<TreeNode> = Vec::new();
        nodes.push(root);
        let ghost parents = seq![0int];
        let r = State { nodes, force_redraw: true, r_tree, rng, parents: Ghost(parents) };
        proof {
            assert(r.node(0) == root);
            assert forall|e: (Rect, usize)| #[trigger]
                index_entries(r.r_tree).contains(e) implies e.1 < r.len() by {
                if e != (corners_rect(root.start, root.end), 0usize) {
                    assert(Multiset::<(Rect, usize)>::empty().count(e) == 0);
                }
            }
            assert(index_entries(r.r_tree).contains((corners_rect(root.start, root.end), 0usize)));
            assert(index_covers(r.r_tree, 0, r.node(0)));
        }
        r
    }

    /// Appends `node` as the last child of `parent` and puts it in the
    /// index, without any intersection test; returns its index.
    pub fn add_segment(&mut self, parent: usize, node: TreeNode) -> (r: usize)
        requires
            old(self).wf(),
            parent < old(self).len(),
            old(self).len() < MAX_SEGMENTS,
            node.wf(),
            node.children@.len() == 0,
        ensures
            final(self).wf(),
            r == old(self).len(),
            final(self).len() == old(self).len() + 1,
            final(self).node(r as int) == node,
            forall|j: int|
                0 <= j < old(self).len() && j != parent ==> #[trigger] final(self).node(j) == old(
                    self,
                ).node(j),
            same_but_children(old(self).node(parent as int), final(self).node(parent as int)),
            final(self).node(parent as int).children@ == old(self).node(
                parent as int,
            ).children@.push(r),
            index_entries(final(self).r_tree) == index_entries(old(self).r_tree).insert(
                (corners_rect(node.start, node.end), r),
            ),
            final(self).rng == old(self).rng,
            final(self).force_redraw == old(self).force_redraw,
    {
        let rect = TreeNodeReference::from_node(&node, self.nodes.len()).mbr();
        self.push_child(parent, node, rect)
    }

    /// Appends `node` as the last child of `parent`, entered in the index
    /// under `rect`.
    pub(crate) fn push_child(&mut self, parent: usize, node: TreeNode, rect: Rect) -> (r: usize)
        requires
            old(self).wf(),
            parent < old(self).len(),
            old(self).len() < MAX_SEGMENTS,
            node.wf(),
            node.children@.len() == 0,
            rect.wf(),
            rect.covers(corners_rect(node.start, node.end)),
        ensures
            final(self).wf(),
            r == old(self).len(),
            final(self).len() == old(self).len() + 1,
            final(self).node(r as int) == node,
            forall|j: int|
                0 <= j < old(self).len() && j != parent ==> #[trigger] final(self).node(j) == old(
                    self,
                ).node(j),
            same_but_children(old(self).node(parent as int), final(self).node(parent as int)),
            final(self).node(parent as int).children@ == old(self).node(
                parent as int,
            ).children@.push(r),
            index_entries(final(self).r_tree) == index_entries(old(self).r_tree).insert(
                (rect, r),
            ),
            final(self).rng == old(self).rng,
            final(self).force_redraw == old(self).force_redraw,
            final(self).parents@ == old(self).parents@.push(parent as int),
    {
        let idx = self.nodes.len();
        self.r_tree.insert(rect, idx);
        self.nodes.push(node);
        self.nodes[parent].children.push(idx);
        let ghost parents = self.parents@.push(parent as int);
        self.parents = Ghost(parents);
        proof {
            let o = old(self);
            assert forall|i: int| 0 <= i < self.len() implies (#[trigger] self.node(i)).wf() by {
                if i < o.len() {
                    assert(o.node(i).wf());
                }
            }
            assert forall|i: int, k: int|
                0 <= i < self.len() && 0 <= k < self.node(i).children@.len() implies i
                    < #[trigger] self.node(i).children@[k] < self.len() && self.parents@[self.node(
                    i,
                ).children@[k] as int] == i by {
                if i == parent {
                    if k < o.node(i).children@.len() {
                        assert(self.node(i).children@[k] == o.node(i).children@[k]);
                    }
                } else if i < o.len() {
                    assert(self.node(i) == o.node(i));
                    assert(i < o.node(i).children@[k] < o.len());
                }
            }
            assert forall|j: int| 0 < j < self.len() implies 0 <= #[trigger] self.parents@[j] < j
                && self.node(self.parents@[j]).children@.contains(j as usize) by {
                if j == idx {
                    assert(self.node(parent as int).children@[o.node(
                        parent as int,
                    ).children@.len() as int] == idx);
                } else {
                    let p = o.parents@[j];
                    assert(o.node(p).children@.contains(j as usize));
                    let k = choose|k: int|
                        0 <= k < o.node(p).children@.len() && o.node(p).children@[k] == j as usize;
                    assert(self.node(p).children@[k] == j as usize);
                }
            }
            assert forall|e: (Rect, usize)| #[trigger]
                index_entries(self.r_tree).contains(e) implies e.1 < self.len() by {
                if e != (rect, idx) {
                    assert(index_entries(o.r_tree).contains(e));
                }
            }
            assert forall|j: int| 0 <= j < self.len() implies #[trigger] index_covers(
                self.r_tree,
                j,
                self.node(j),
            ) by {
                if j == idx {
                    assert(index_entries(self.r_tree).contains((rect, idx)));
                } else {
                    assert(index_covers(o.r_tree, j, o.node(j)));
                    let e = choose|e: (Rect, usize)|
                        #![trigger index_entries(o.r_tree).contains(e)]
                        index_entries(o.r_tree).contains(e) && e.1 == j && e.0.covers(
                            corners_rect(o.node(j).start, o.node(j).end),
                        );
                    assert(index_entries(self.r_tree).contains(e));
                }
            }
            assert forall|i: int, m: int, n: int|
                0 <= i < self.len() && 0 <= m < n < self.node(i).children@.len() implies #[trigger] self.node(
                    i,
                ).children@[m] < #[trigger] self.node(i).children@[n] by {
                if i == parent && n == o.node(i).children@.len() {
                    assert(self.node(i).children@[m] == o.node(i).children@[m]);
                    assert(o.node(i).children@[m] < o.len());
                } else if i < o.len() {
                    assert(self.node(i).children@[m] == o.node(i).children@[m]);
                    assert(self.node(i).children@[n] == o.node(i).children@[n]);
                }
            }
            let m0 = index_entries(o.r_tree);
            let m1 = index_entries(self.r_tree);
            let x = (rect, idx);
            assert(m0.count(x) == 0) by {
                if m0.count(x) > 0 {
                    assert(m0.contains(x));
                }
            }
            assert forall|e: (Rect, usize)| #[trigger] m1.count(e) <= 1 by {
                assert(m1.count(e) == m0.count(e) + if e == x {
                    1int
                } else {
                    0int
                });
            }
            assert forall|e1: (Rect, usize), e2: (Rect, usize)|
                #[trigger] m1.contains(e1) && #[trigger] m1.contains(e2) && e1.1 == e2.1 implies e1
                == e2 by {
                if e1 != x {
                    assert(m0.contains(e1));
                }
                if e2 != x {
                    assert(m0.contains(e2));
                }
            }
        }
        idx
    }
}

/// A segment below `i` comes at or after `i`.
pub proof fn lemma_descends_below(parents: Seq<int>, j: int, i: int)
    requires
        descends(parents, j, i),
    ensures
        i <= j,
    decreases j,
{
}

/// The children of a segment come in increasing index order.
pub proof fn lemma_children_increase(s: State, i: int, m: int, n: int)
    requires
        s.wf(),
        0 <= i < s.len(),
        0 <= m < n < s.node(i).children@.len(),
    ensures
        s.node(i).children@[m] < s.node(i).children@[n],
{
}

/// Whether `j` lies below `i` depends only on the parents up to `j`.
pub proof fn lemma_descends_prefix(shorter: Seq<int>, longer: Seq<int>, j: int, i: int)
    requires
        shorter.len() <= longer.len(),
        forall|t: int| 0 <= t < shorter.len() ==> #[trigger] longer[t] == shorter[t],
        0 <= j < shorter.len(),
    ensures
        descends(shorter, j, i) == descends(longer, j, i),
    decreases j,
{
    if j != i && 0 <= i < j && 0 <= shorter[j] < j {
        lemma_descends_prefix(shorter, longer, shorter[j], i);
    }
}

/// Below is transitive.
pub proof fn lemma_descends_trans(parents: Seq<int>, j: int, a: int, b: int)
    requires
        descends(parents, j, a),
        descends(parents, a, b),
    ensures
        descends(parents, j, b),
    decreases j,
{
    if j != a {
        lemma_descends_below(parents, a, b);
        lemma_descends_trans(parents, parents[j], a, b);
    }
}

/// Two segments above a third lie one below the other.
pub proof fn lemma_descends_chain(parents: Seq<int>, j: int, a: int, b: int)
    requires
        descends(parents, j, a),
        descends(parents, j, b),
        a <= b,
    ensures
        descends(parents, b, a),
    decreases j,
{
    if j != b {
        if j == a {
            lemma_descends_below(parents, j, b);
        } else {
            lemma_descends_chain(parents, parents[j], a, b);
        }
    }
}

} // verus!
