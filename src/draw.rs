//! The draw pass, which turns the tree into lines, and the per-frame tick.
use crate::arena::{
    descends, lemma_descends_below, lemma_descends_trans, lemma_children_increase, State,
};
use crate::geometry::{Point, HALF_UNIT};
use crate::growth::{grown_from, lemma_grown_trans, made_by_split, stepped};
use crate::random::{next_state, scaled, Rng, RNG_MODULUS};
use crate::spatial::{corners_rect, index_entries, Rect, MAX_SEGMENTS};
use crate::tree_node::{
    lemma_redraw_is_still, Line, TreeNode, DEFAULT_MAX_TREE_DEPTH, DEFAULT_SPLIT_COUNT,
    DEFAULT_THETA_RANGE, GROW_SPEED_MAX, GROW_SPEED_MIN, LIMB_LENGTH_MAX, LIMB_LENGTH_MIN,
};
use vstd::multiset::Multiset;
use vstd::prelude::*;

verus! {

/// `line` is what a draw pass with flag `force_redraw` emits for some
/// segment of `s` that it draws.
pub open spec fn emitted_by(s: State, force_redraw: bool, line: Line) -> bool {
    exists|j: int|
        0 <= j < s.len() && #[trigger] s.node(j).redraws(force_redraw) && line == s.node(
            j,
        ).drawn_line(force_redraw)
}

/// The lines that a draw pass with flag `force_redraw` emits for the
/// subtree at `i`, in pre-order: the segment's own line, if it is drawn,
/// then those of its children's subtrees in order.
pub open spec fn subtree_lines(s: State, i: int, force_redraw: bool) -> Seq<Line>
    decreases s.len() - i, s.node(i).children@.len() + 1,
{
    let own = if s.node(i).redraws(force_redraw) {
        seq![s.node(i).drawn_line(force_redraw)]
    } else {
        Seq::<Line>::empty()
    };
    own + children_lines(s, i, 0, force_redraw)
}

/// The lines of the subtrees of the children of `i` from the `k`-th on.
pub open spec fn children_lines(s: State, i: int, k: int, force_redraw: bool) -> Seq<Line>
    decreases s.len() - i, s.node(i).children@.len() - k,
{
    if 0 <= k < s.node(i).children@.len() && 0 <= i < s.node(i).children@[k] < s.len() {
        subtree_lines(s, s.node(i).children@[k] as int, force_redraw) + children_lines(
            s,
            i,
            k + 1,
            force_redraw,
        )
    } else {
        Seq::<Line>::empty()
    }
}

/// The lines of a subtree depend only on the segments in it.
proof fn lemma_subtree_lines_frame(s1: State, s2: State, i: int, force_redraw: bool)
    requires
        s1.wf(),
        s1.len() == s2.len(),
        s1.parents == s2.parents,
        0 <= i < s1.len(),
        forall|j: int|
            0 <= j < s1.len() && descends(s1.parents@, j, i) ==> #[trigger] s2.node(j) == s1.node(j),
    ensures
        subtree_lines(s1, i, force_redraw) == subtree_lines(s2, i, force_redraw),
    decreases s1.len() - i, s1.node(i).children@.len() + 1,
{
    assert(descends(s1.parents@, i, i));
    lemma_children_lines_frame(s1, s2, i, 0, force_redraw);
}

proof fn lemma_children_lines_frame(s1: State, s2: State, i: int, k: int, force_redraw: bool)
    requires
        s1.wf(),
        s1.len() == s2.len(),
        s1.parents == s2.parents,
        0 <= i < s1.len(),
        0 <= k,
        forall|j: int|
            0 <= j < s1.len() && descends(s1.parents@, j, i) ==> #[trigger] s2.node(j) == s1.node(j),
    ensures
        children_lines(s1, i, k, force_redraw) == children_lines(s2, i, k, force_redraw),
    decreases s1.len() - i, s1.node(i).children@.len() - k,
{
    assert(descends(s1.parents@, i, i));
    assert(s2.node(i) == s1.node(i));
    if k < s1.node(i).children@.len() {
        let c = s1.node(i).children@[k] as int;
        s1.lemma_child_below(i, k);
        assert forall|j: int|
            0 <= j < s1.len() && descends(s1.parents@, j, c) implies #[trigger] s2.node(j)
            == s1.node(j) by {
            lemma_descends_trans(s1.parents@, j, c, i);
        }
        lemma_subtree_lines_frame(s1, s2, c, force_redraw);
        lemma_children_lines_frame(s1, s2, i, k + 1, force_redraw);
    }
}

/// Every line of a subtree comes from a segment that is drawn.
proof fn lemma_subtree_lines_emitted(s: State, i: int, force_redraw: bool)
    requires
        s.wf(),
        0 <= i < s.len(),
    ensures
        forall|t: int|
            0 <= t < subtree_lines(s, i, force_redraw).len() ==> emitted_by(
                s,
                force_redraw,
                #[trigger] subtree_lines(s, i, force_redraw)[t],
            ),
    decreases s.len() - i, s.node(i).children@.len() + 1,
{
    lemma_children_lines_emitted(s, i, 0, force_redraw);
    let own = if s.node(i).redraws(force_redraw) {
        seq![s.node(i).drawn_line(force_redraw)]
    } else {
        Seq::<Line>::empty()
    };
    let rest = children_lines(s, i, 0, force_redraw);
    assert forall|t: int|
        0 <= t < subtree_lines(s, i, force_redraw).len() implies emitted_by(
        s,
        force_redraw,
        #[trigger] subtree_lines(s, i, force_redraw)[t],
    ) by {
        if t < own.len() {
            assert(s.node(i).redraws(force_redraw));
        } else {
            assert(subtree_lines(s, i, force_redraw)[t] == rest[t - own.len()]);
        }
    }
}

proof fn lemma_children_lines_emitted(s: State, i: int, k: int, force_redraw: bool)
    requires
        s.wf(),
        0 <= i < s.len(),
        0 <= k,
    ensures
        forall|t: int|
            0 <= t < children_lines(s, i, k, force_redraw).len() ==> emitted_by(
                s,
                force_redraw,
                #[trigger] children_lines(s, i, k, force_redraw)[t],
            ),
    decreases s.len() - i, s.node(i).children@.len() - k,
{
    if k < s.node(i).children@.len() {
        let c = s.node(i).children@[k] as int;
        lemma_subtree_lines_emitted(s, c, force_redraw);
        lemma_children_lines_emitted(s, i, k + 1, force_redraw);
        let first = subtree_lines(s, c, force_redraw);
        let rest = children_lines(s, i, k + 1, force_redraw);
        assert forall|t: int|
            0 <= t < children_lines(s, i, k, force_redraw).len() implies emitted_by(
            s,
            force_redraw,
            #[trigger] children_lines(s, i, k, force_redraw)[t],
        ) by {
            if t < first.len() {
                assert(children_lines(s, i, k, force_redraw)[t] == first[t]);
            } else {
                assert(children_lines(s, i, k, force_redraw)[t] == rest[t - first.len()]);
            }
        }
    }
}

/// `b` and `lines` are what a draw pass over the whole of `a` gives: every
/// segment has been visited once, and the lines are those of the whole tree
/// in pre-order.
pub open spec fn draw_pass(a: State, b: State, force_redraw: bool, lines: Seq<Line>) -> bool {
    &&& b.len() == a.len()
    &&& lines == subtree_lines(a, 0, force_redraw)
    &&& forall|j: int| 0 <= j < a.len() ==> #[trigger] b.node(j) == a.node(j).after_draw(force_redraw)
}

impl State {
    /// One draw pass over the subtree at `index`, in pre-order: each segment
    /// below `index` is drawn once, the lines drawn are appended to `out`,
    /// and the rest of the tree is left as it is.
    pub fn draw(&mut self, index: usize, force_redraw: bool, out: &mut Vec<Line>)
        requires
            old(self).wf(),
            index < old(self).len(),
        ensures
            final(self).wf(),
            final(self).len() == old(self).len(),
            final(self).r_tree == old(self).r_tree,
            final(self).rng == old(self).rng,
            final(self).parents == old(self).parents,
            final(self).force_redraw == old(self).force_redraw,
            forall|j: int|
                0 <= j < old(self).len() ==> #[trigger] final(self).node(j) == if descends(
                    old(self).parents@,
                    j,
                    index as int,
                ) {
                    old(self).node(j).after_draw(force_redraw)
                } else {
                    old(self).node(j)
                },
            old(out)@.len() <= final(out)@.len(),
            final(out)@.subrange(0, old(out)@.len() as int) == old(out)@,
            final(out)@ == old(out)@ + subtree_lines(*old(self), index as int, force_redraw),
        decreases old(self).len() - index,
    {
        let ghost entry = *self;
        let ghost out0 = out@;
        let ghost pa = entry.parents@;
        proof {
            assert(entry.node(index as int).wf());
            lemma_after_draw_idempotent(entry.node(index as int), force_redraw);
        }
        let line = self.nodes[index].draw_step(force_redraw);
        match line {
            Some(l) => {
                out.push(l);
            },
            None => {},
        }
        proof {
            assert forall|j: int| 0 <= j < entry.len() implies (#[trigger] self.node(j)).wf()
                && self.node(j).children@ == entry.node(j).children@ && self.node(j).start
                == entry.node(j).start && self.node(j).end == entry.node(j).end by {
                assert(entry.node(j).wf());
            }
            entry.lemma_wf_redrawn(*self);
            assert(out@.subrange(0, out0.len() as int) =~= out0);
        }
        proof {
            assert(out@ + children_lines(entry, index as int, 0, force_redraw) =~= out0
                + subtree_lines(entry, index as int, force_redraw));
            assert(descends(pa, index as int, index as int));
        }
        let children = self.children_of(index);
        let mut k: usize = 0;
        while k < children.len()
            invariant
                self.wf(),
                entry.wf(),
                index < self.len(),
                self.len() == entry.len(),
                self.r_tree == entry.r_tree,
                self.rng == entry.rng,
                self.parents == entry.parents,
                pa == entry.parents@,
                self.force_redraw == entry.force_redraw,
                entry == *old(self),
                out0 == old(out)@,
                children@ == entry.node(index as int).children@,
                k <= children@.len(),
                self.node(index as int) == entry.node(index as int).after_draw(force_redraw),
                forall|j: int|
                    0 <= j < entry.len() && !descends(pa, j, index as int) ==> #[trigger] self.node(j)
                        == entry.node(j),
                forall|m: int, j: int|
                    0 <= m < k && 0 <= j < entry.len() && descends(
                        pa,
                        j,
                        #[trigger] children@[m] as int,
                    ) ==> #[trigger] self.node(j) == entry.node(j).after_draw(force_redraw),
                forall|m: int, j: int|
                    k <= m < children@.len() && 0 <= j < entry.len() && descends(
                        pa,
                        j,
                        #[trigger] children@[m] as int,
                    ) ==> #[trigger] self.node(j) == entry.node(j),
                out0.len() <= out@.len(),
                out@.subrange(0, out0.len() as int) == out0,
                out@ + children_lines(entry, index as int, k as int, force_redraw) == out0
                    + subtree_lines(entry, index as int, force_redraw),
            decreases children@.len() - k,
        {
            let c = children[k];
            proof {
                assert(index < entry.node(index as int).children@[k as int] < entry.len());
                entry.lemma_child_below(index as int, k as int);
            }
            let ghost before = *self;
            let ghost out_before = out@;
            self.draw(c, force_redraw, out);
            proof {
                assert forall|j: int|
                    0 <= j < entry.len() && descends(entry.parents@, j, c as int) implies #[trigger] before.node(
                    j,
                ) == entry.node(j) by {
                    assert(descends(pa, j, children@[k as int] as int));
                }
                lemma_subtree_lines_frame(entry, before, c as int, force_redraw);
                assert(children_lines(entry, index as int, k as int, force_redraw)
                    == subtree_lines(entry, c as int, force_redraw) + children_lines(
                    entry,
                    index as int,
                    k + 1,
                    force_redraw,
                ));
                assert(out@ + children_lines(entry, index as int, k + 1, force_redraw) =~= out_before
                    + children_lines(entry, index as int, k as int, force_redraw));
                assert forall|j: int|
                    0 <= j < entry.len() && descends(pa, j, c as int) implies before.node(j)
                    == entry.node(j) by {
                    assert(descends(pa, j, children@[k as int] as int));
                }
                assert forall|j: int|
                    0 <= j < entry.len() && !descends(pa, j, index as int) implies #[trigger] self.node(
                    j,
                ) == entry.node(j) by {
                    if descends(pa, j, c as int) {
                        lemma_descends_trans(pa, j, c as int, index as int);
                    }
                }
                assert(!descends(pa, index as int, c as int)) by {
                    if descends(pa, index as int, c as int) {
                        lemma_descends_below(pa, index as int, c as int);
                    }
                }
                assert forall|m: int, j: int|
                    0 <= m < k + 1 && 0 <= j < entry.len() && descends(
                        pa,
                        j,
                        #[trigger] children@[m] as int,
                    ) implies #[trigger] self.node(j) == entry.node(j).after_draw(force_redraw) by {
                    if m < k {
                        assert(children@[m] != children@[k as int]) by {
                            assert(children@[m] < children@[k as int]) by {
                                lemma_children_increase(entry, index as int, m, k as int);
                            }
                        }
                        entry.lemma_siblings_apart(index as int, m, k as int, j);
                    }
                }
                assert forall|m: int, j: int|
                    k + 1 <= m < children@.len() && 0 <= j < entry.len() && descends(
                        pa,
                        j,
                        #[trigger] children@[m] as int,
                    ) implies #[trigger] self.node(j) == entry.node(j) by {
                    assert(children@[m] != children@[k as int]) by {
                        lemma_children_increase(entry, index as int, k as int, m);
                    }
                    entry.lemma_siblings_apart(index as int, m, k as int, j);
                }
                assert(out@.subrange(0, out0.len() as int) =~= out0) by {
                    assert forall|t: int| 0 <= t < out0.len() implies out@[t] == out0[t] by {
                        assert(out@.subrange(0, out_before.len() as int)[t] == out_before[t]);
                        assert(out_before.subrange(0, out0.len() as int)[t] == out0[t]);
                    }
                }
            }
            k = k + 1;
        }
        proof {
            assert forall|j: int| 0 <= j < entry.len() implies #[trigger] self.node(j) == if descends(
                pa,
                j,
                index as int,
            ) {
                entry.node(j).after_draw(force_redraw)
            } else {
                entry.node(j)
            } by {
                if descends(pa, j, index as int) && j != index {
                    lemma_descends_below(pa, j, index as int);
                    entry.lemma_descends_via_child(j, index as int);
                    let m = choose|m: int|
                        0 <= m < entry.node(index as int).children@.len() && descends(
                            pa,
                            j,
                            #[trigger] entry.node(index as int).children@[m] as int,
                        );
                    assert(children@[m] == entry.node(index as int).children@[m]);
                }
            }
        }
    }

    /// One draw pass over the whole tree, from the root.
    pub fn draw_lines(&mut self, force_redraw: bool) -> (r: Vec<Line>)
        requires
            old(self).wf(),
        ensures
            final(self).wf(),
            draw_pass(*old(self), *final(self), force_redraw, r@),
            final(self).r_tree == old(self).r_tree,
            final(self).rng == old(self).rng,
            final(self).force_redraw == old(self).force_redraw,
    {
        let ghost entry = *self;
        let mut out: Vec<Line> = Vec::new();
        self.draw(0, force_redraw, &mut out);
        proof {
            assert forall|j: int| 0 <= j < entry.len() implies #[trigger] self.node(j)
                == entry.node(j).after_draw(force_redraw) by {
                entry.lemma_all_below_root(j);
            }
        }
        out
    }
}

/// Drawing a segment twice with the same flag is drawing it once.
pub proof fn lemma_after_draw_idempotent(n: TreeNode, force_redraw: bool)
    requires
        n.wf(),
    ensures
        n.after_draw(force_redraw).after_draw(force_redraw) == n.after_draw(force_redraw),
        n.after_draw(force_redraw).wf(),
{
    crate::tree_node::lemma_visible_end_in_range(n);
}

/// `b` and `lines` are what one tick gives from `a`: every segment of `a`
/// takes its growth step, every new segment comes from a split that was due,
/// then a draw pass with flag `force_redraw` runs over the grown tree.
pub open spec fn tick_result(a: State, b: State, force_redraw: bool, lines: Seq<Line>) -> bool {
    exists|g: State|
        #[trigger] draw_pass(g, b, force_redraw, lines) && g.wf() && a.len() <= g.len() && forall|
            j: int,
        | 0 <= j < a.len() ==> stepped(#[trigger] a.node(j), g.node(j), g.len() == MAX_SEGMENTS)
            && forall|n: int| a.len() <= n < g.len() ==> #[trigger] made_by_split(a, g, 0, n)
}

/// A draw pass that is not forced, right after another draw pass over the
/// same tree, emits only lines that start where they end.
pub proof fn lemma_second_pass_is_still(
    s0: State,
    s1: State,
    s2: State,
    force_redraw: bool,
    first: Seq<Line>,
    second: Seq<Line>,
)
    requires
        s0.wf(),
        s1.wf(),
        draw_pass(s0, s1, force_redraw, first),
        draw_pass(s1, s2, false, second),
    ensures
        forall|k: int| 0 <= k < second.len() ==> (#[trigger] second[k]).from == second[k].to,
{
    lemma_subtree_lines_emitted(s1, 0, false);
    assert forall|k: int| 0 <= k < second.len() implies (#[trigger] second[k]).from
        == second[k].to by {
        assert(emitted_by(s1, false, second[k]));
        let j = choose|j: int|
            0 <= j < s1.len() && ((#[trigger] s1.node(j).redraws(false) && second[k] == s1.node(
                j,
            ).drawn_line(false)) || (s1.node(j).after_draw(false).redraws(false) && second[k]
                == s1.node(j).after_draw(false).drawn_line(false)));
        assert(s0.node(j).wf());
        assert(s1.node(j) == s0.node(j).after_draw(force_redraw));
        lemma_after_draw_idempotent(s0.node(j), force_redraw);
        lemma_redraw_is_still(s0.node(j), force_redraw);
        lemma_redraw_is_still(s1.node(j), false);
    }
}

/// Runs one frame: the whole tree grows, then is drawn, fully when the
/// state asks for it or the page was resized; returns the lines drawn.
pub fn tick(state: &mut State, is_resized: bool) -> (r: Vec<Line>)
    requires
        old(state).wf(),
    ensures
        final(state).wf(),
        !final(state).force_redraw,
        old(state).len() <= final(state).len(),
        forall|j: int|
            0 <= j < old(state).len() ==> grown_from(
                #[trigger] old(state).node(j),
                final(state).node(j),
            ),
        tick_result(*old(state), *final(state), old(state).force_redraw || is_resized, r@),
{
    let ghost entry = *state;
    if is_resized {
        let ghost before = *state;
        state.force_redraw = true;
        proof {
            before.lemma_wf_same_parts(*state);
        }
    }
    let ghost pre_grow = *state;
    proof {
        assert(pre_grow.nodes == entry.nodes);
    }
    state.grow(0);
    let ghost grown = *state;
    let force = state.force_redraw;
    let lines = state.draw_lines(force);
    let ghost drawn = *state;
    state.force_redraw = false;
    proof {
        assert forall|j: int| 0 <= j < entry.len() implies stepped(
            #[trigger] entry.node(j),
            grown.node(j),
            grown.len() == MAX_SEGMENTS,
        ) by {
            pre_grow.lemma_all_below_root(j);
            assert(entry.node(j) == pre_grow.node(j));
        }
        assert forall|n: int| entry.len() <= n < grown.len() implies #[trigger] made_by_split(
            entry,
            grown,
            0,
            n,
        ) by {
            assert(made_by_split(pre_grow, grown, 0, n));
            assert(entry.parents == pre_grow.parents);
        }
        drawn.lemma_wf_same_parts(*state);
        assert(draw_pass(grown, *state, force, lines@)) by {
            assert forall|j: int| 0 <= j < grown.len() implies #[trigger] state.node(j)
                == grown.node(j).after_draw(force) by {
                assert(drawn.node(j) == grown.node(j).after_draw(force));
            }
        }
        assert forall|j: int| 0 <= j < entry.len() implies grown_from(
            #[trigger] entry.node(j),
            state.node(j),
        ) by {
            assert(entry.node(j) == pre_grow.node(j));
            assert(grown_from(entry.node(j), grown.node(j)));
            assert(state.node(j) == grown.node(j).after_draw(force));
            assert(grown.node(j).wf());
            lemma_after_draw_idempotent(grown.node(j), force);
            lemma_grown_trans(entry.node(j), grown.node(j), state.node(j));
        }
    }
    lines
}

/// The `k`-th state of a generator that starts at `s`.
pub open spec fn nth_state(s: u64, k: nat) -> u64
    decreases k,
{
    if k == 0 {
        s
    } else {
        next_state(nth_state(s, (k - 1) as nat))
    }
}

/// The growth speed and limb length that the `i`-th segment made by `init`
/// draws from a generator seeded with `seed`.
pub open spec fn seeded_params(seed: u64, i: nat, n: TreeNode) -> bool {
    let s0 = seed % RNG_MODULUS;
    &&& n.grow_speed == scaled(
        GROW_SPEED_MIN as int,
        GROW_SPEED_MAX as int,
        nth_state(s0, 2 * i + 1),
    )
    &&& n.limb_length == scaled(
        LIMB_LENGTH_MIN as int,
        LIMB_LENGTH_MAX as int,
        nth_state(s0, 2 * i + 2),
    )
    &&& n.last_drawn_end == n.start
    &&& !n.fully_drawn
    &&& n.growth_length == 0
    &&& n.split_theta_range == DEFAULT_THETA_RANGE
    &&& n.max_tree_depth == DEFAULT_MAX_TREE_DEPTH
    &&& n.split_count == DEFAULT_SPLIT_COUNT
}

/// Builds the starting tree: a root of length zero at the center, and four
/// first-generation branches that reach in from the corners of the square
/// `[-1/2, 1/2]^2`, each as long as the root's limb length along both axes.
/// The segments draw their parameters from a generator seeded with `seed`,
/// in index order, and each is in the index under its own index.
#[verifier::rlimit(40)]
pub fn init(seed: u64) -> (r: State)
    ensures
        r.wf(),
        r.len() == 5,
        r.force_redraw,
        r.rng.state == nth_state(seed % RNG_MODULUS, 10),
        r.node(0).start == (Point { x: 0, y: 0 }) && r.node(0).end == (Point { x: 0, y: 0 }),
        r.node(0).depth == 0,
        r.node(0).children@ == seq![1usize, 2, 3, 4],
        forall|i: int| 1 <= i < 5 ==> (#[trigger] r.node(i)).depth == 1 && r.node(i).children@.len() == 0,
        forall|i: int| 0 <= i < 5 ==> seeded_params(seed, i as nat, #[trigger] r.node(i)),
        ({
            let l = r.node(0).limb_length;
            let h = HALF_UNIT;
            &&& r.node(1).start == (Point { x: -h as i64, y: -h as i64 })
            &&& r.node(1).end == (Point { x: (-h + l) as i64, y: (-h + l) as i64 })
            &&& r.node(2).start == (Point { x: -h as i64, y: h })
            &&& r.node(2).end == (Point { x: (-h + l) as i64, y: (h - l) as i64 })
            &&& r.node(3).start == (Point { x: h, y: -h as i64 })
            &&& r.node(3).end == (Point { x: (h - l) as i64, y: (-h + l) as i64 })
            &&& r.node(4).start == (Point { x: h, y: h })
            &&& r.node(4).end == (Point { x: (h - l) as i64, y: (h - l) as i64 })
        }),
        index_entries(r.r_tree) == Multiset::<(Rect, usize)>::empty().insert(
            (corners_rect(r.node(0).start, r.node(0).end), 0usize),
        ).insert((corners_rect(r.node(1).start, r.node(1).end), 1usize)).insert(
            (corners_rect(r.node(2).start, r.node(2).end), 2usize),
        ).insert((corners_rect(r.node(3).start, r.node(3).end), 3usize)).insert(
            (corners_rect(r.node(4).start, r.node(4).end), 4usize),
        ),
{
    let mut rng = Rng::new(seed);
    let root = TreeNode::new(0, 0, 0, 0, 0, &mut rng);
    let l = root.limb_length;
    let h = HALF_UNIT;
    let lt = TreeNode::new(-h, -h, -h + l, -h + l, 1, &mut rng);
    let lb = TreeNode::new(-h, h, -h + l, h - l, 1, &mut rng);
    let rt = TreeNode::new(h, -h, h - l, -h + l, 1, &mut rng);
    let rb = TreeNode::new(h, h, h - l, h - l, 1, &mut rng);
    let mut state = State::new(root, rng);
    state.add_segment(0, lt);
    state.add_segment(0, lb);
    state.add_segment(0, rt);
    state.add_segment(0, rb);
    proof {
        reveal_with_fuel(nth_state, 11);
        assert(state.node(0).children@ =~= seq![1usize, 2, 3, 4]);
        assert(state.node(1).depth == 1 && state.node(2).depth == 1 && state.node(3).depth == 1
            && state.node(4).depth == 1);
        assert(seeded_params(seed, 0, state.node(0)));
        assert(seeded_params(seed, 1, state.node(1)));
        assert(seeded_params(seed, 2, state.node(2)));
        assert(seeded_params(seed, 3, state.node(3)));
        assert(seeded_params(seed, 4, state.node(4)));
    }
    state
}

} // verus!
