use growing_tree::arena::State;
use growing_tree::draw::{init, tick};
use growing_tree::geometry::{Point, GROWTH_FULL, UNIT};
use growing_tree::random::Rng;
use growing_tree::spatial::Rect;
use growing_tree::tree_node::{
    Line, TreeNode, DEFAULT_MAX_TREE_DEPTH, DEFAULT_SPLIT_COUNT, GROW_SPEED_MAX, GROW_SPEED_MIN,
    LIMB_LENGTH_MAX, LIMB_LENGTH_MIN,
};

fn p(x: i64, y: i64) -> Point {
    Point::new(x, y)
}

fn segment(start: Point, end: Point, grow_speed: i64) -> TreeNode {
    TreeNode::with_params(start, end, 0, grow_speed, 3_000)
}

#[test]
fn root_reaches_full_growth_after_ten_ticks_at_a_tenth() {
    let root = segment(p(0, 0), p(0, UNIT / 20), GROWTH_FULL / 10);
    let mut state = State::new(root, Rng::new(3));
    for t in 1..10 {
        tick(&mut state, false);
        assert_eq!(state.nodes[0].growth_length, t * GROWTH_FULL / 10);
        assert!(state.nodes[0].children.is_empty());
    }
    tick(&mut state, false);
    assert_eq!(state.nodes[0].growth_length, GROWTH_FULL);
}

#[test]
fn unobstructed_segment_splits_into_three_children_at_its_end() {
    let root = segment(p(0, 0), p(0, UNIT / 20), GROWTH_FULL / 10);
    let mut state = State::new(root, Rng::new(11));
    assert_eq!(state.nodes[0].split_count, 3);
    for _ in 0..10 {
        tick(&mut state, false);
    }
    let children = state.nodes[0].children.clone();
    assert_eq!(children, vec![1, 2, 3]);
    assert_eq!(state.nodes.len(), 4);
    for &c in &children {
        let child = &state.nodes[c];
        assert_eq!(child.start, p(0, UNIT / 20));
        assert!(child.depth == 0 || child.depth == 1);
        assert!(child.depth < DEFAULT_MAX_TREE_DEPTH);
        assert!(child.children.is_empty());
        assert!(child.growth_length >= GROW_SPEED_MIN);
        assert!(child.growth_length < GROW_SPEED_MAX);
    }
}

#[test]
fn children_appear_once_and_keep_their_order() {
    let root = segment(p(0, 0), p(0, UNIT / 20), GROWTH_FULL / 10);
    let mut state = State::new(root, Rng::new(5));
    for _ in 0..10 {
        tick(&mut state, false);
    }
    let first = state.nodes[0].children.clone();
    for _ in 0..40 {
        tick(&mut state, false);
        assert_eq!(state.nodes[0].children, first);
    }
}

#[test]
fn candidate_crossing_a_segment_is_clipped_there_and_stops() {
    let root = segment(p(-UNIT / 10, -UNIT / 10), p(0, 0), 0);
    let mut state = State::new(root, Rng::new(1));
    let wall = segment(p(UNIT, 0), p(0, UNIT), 0);
    assert_eq!(state.add_segment(0, wall), 1);
    let candidate = TreeNode::with_params(p(0, 0), p(UNIT, UNIT), 1, 40_000, 2_000);
    let index = state.attach_child(0, candidate);
    assert_eq!(index, 2);
    let child = &state.nodes[2];
    assert_eq!(child.start, p(0, 0));
    assert_eq!(child.end, p(UNIT / 2, UNIT / 2));
    assert_eq!(child.depth, child.max_tree_depth);
    assert_eq!(child.depth, DEFAULT_MAX_TREE_DEPTH);
    assert_eq!(state.nodes[0].children, vec![1, 2]);
}

#[test]
fn candidate_is_clipped_at_the_nearest_of_several_crossings() {
    let root = segment(p(-UNIT / 10, 0), p(0, 0), 0);
    let mut state = State::new(root, Rng::new(1));
    state.add_segment(0, segment(p(UNIT / 2, -UNIT / 4), p(UNIT / 2, UNIT / 4), 0));
    state.add_segment(0, segment(p(UNIT / 4, -UNIT / 4), p(UNIT / 4, UNIT / 4), 0));
    let candidate = TreeNode::with_params(p(0, 0), p(UNIT, 0), 3, 40_000, 2_000);
    let index = state.attach_child(0, candidate);
    assert_eq!(state.nodes[index].end, p(UNIT / 4, 0));
}

#[test]
fn unobstructed_candidate_keeps_its_end_and_depth() {
    let root = segment(p(-UNIT / 10, 0), p(0, 0), 0);
    let mut state = State::new(root, Rng::new(1));
    let candidate = TreeNode::with_params(p(0, 0), p(UNIT / 10, UNIT / 10), 4, 40_000, 2_000);
    let index = state.attach_child(0, candidate);
    assert_eq!(state.nodes[index].end, p(UNIT / 10, UNIT / 10));
    assert_eq!(state.nodes[index].depth, 4);
}

#[test]
fn index_lookup_matches_a_scan() {
    let root = segment(p(-UNIT / 10, 0), p(0, 0), 0);
    let mut state = State::new(root, Rng::new(1));
    let pieces = [
        (p(10_000, 10_000), p(20_000, 30_000)),
        (p(-40_000, 5_000), p(-30_000, -5_000)),
        (p(0, 0), p(0, 50_000)),
        (p(60_000, 60_000), p(70_000, 80_000)),
        (p(-90_000, -90_000), p(90_000, -80_000)),
    ];
    for (a, b) in pieces.iter() {
        state.add_segment(0, segment(*a, *b, 0));
    }
    let queries = [
        Rect::from_corners(p(15_000, 0), p(25_000, 12_000)),
        Rect::from_corners(p(-100_000, -100_000), p(100_000, 100_000)),
        Rect::from_corners(p(-35_000, -1_000), p(-35_000, 1_000)),
        Rect::from_corners(p(30_000, 30_000), p(50_000, 50_000)),
        Rect::from_corners(p(0, -85_000), p(1_000, -84_000)),
    ];
    for q in queries.iter() {
        let mut found = state.r_tree.lookup_in_rectangle(*q);
        found.sort();
        let mut scan: Vec<usize> = Vec::new();
        for (i, n) in state.nodes.iter().enumerate() {
            if Rect::from_corners(n.start, n.end).intersects(q) {
                scan.push(i);
            }
        }
        assert_eq!(found, scan);
    }
}

#[test]
fn lookup_near_a_clipped_segment_still_finds_it() {
    let root = segment(p(-UNIT / 10, -UNIT / 10), p(0, 0), 0);
    let mut state = State::new(root, Rng::new(1));
    state.add_segment(0, segment(p(UNIT, 0), p(0, UNIT), 0));
    let index = state.attach_child(0, TreeNode::with_params(p(0, 0), p(UNIT, UNIT), 1, 40_000, 2_000));
    let beyond = Rect::from_corners(p(9 * UNIT / 10, 9 * UNIT / 10), p(UNIT, UNIT));
    let mut found = state.segments_near(beyond);
    found.sort();
    assert!(found.contains(&index));
    let everywhere = Rect::from_corners(p(-2 * UNIT, -2 * UNIT), p(2 * UNIT, 2 * UNIT));
    let mut all = state.segments_near(everywhere);
    all.sort();
    assert_eq!(all, vec![0, 1, 2]);
}

#[test]
fn lookup_covers_a_scan_of_the_grown_tree() {
    let mut state = init(13);
    for _ in 0..60 {
        tick(&mut state, false);
    }
    let q = Rect::from_corners(p(-20_000, -20_000), p(15_000, 25_000));
    let found = state.segments_near(q);
    for (i, n) in state.nodes.iter().enumerate() {
        if Rect::from_corners(n.start, n.end).intersects(&q) {
            assert!(found.contains(&i));
        }
    }
}

#[test]
fn starting_tree_has_a_root_and_four_corner_branches() {
    let state = init(7);
    assert_eq!(state.nodes.len(), 5);
    assert!(state.force_redraw);
    assert_eq!(state.nodes[0].children, vec![1, 2, 3, 4]);
    let l = state.nodes[0].limb_length;
    assert!((LIMB_LENGTH_MIN..LIMB_LENGTH_MAX).contains(&l));
    let h = UNIT / 2;
    assert_eq!(state.nodes[1].start, p(-h, -h));
    assert_eq!(state.nodes[1].end, p(-h + l, -h + l));
    assert_eq!(state.nodes[2].start, p(-h, h));
    assert_eq!(state.nodes[2].end, p(-h + l, h - l));
    assert_eq!(state.nodes[3].start, p(h, -h));
    assert_eq!(state.nodes[3].end, p(h - l, -h + l));
    assert_eq!(state.nodes[4].start, p(h, h));
    assert_eq!(state.nodes[4].end, p(h - l, h - l));
    for i in 1..5 {
        assert_eq!(state.nodes[i].depth, 1);
        assert_eq!(state.nodes[i].split_count, DEFAULT_SPLIT_COUNT);
    }
}

#[test]
fn same_seed_grows_the_same_tree() {
    let mut a = init(99);
    let mut b = init(99);
    for _ in 0..60 {
        let la = tick(&mut a, false);
        let lb = tick(&mut b, false);
        assert_eq!(la, lb);
    }
    assert_eq!(a.nodes.len(), b.nodes.len());
    assert!(a.nodes.len() > 5);
}

#[test]
fn growth_never_shrinks_nor_passes_the_whole() {
    let mut state = init(4);
    let mut last: Vec<i64> = state.nodes.iter().map(|n| n.growth_length).collect();
    for _ in 0..80 {
        tick(&mut state, false);
        for (i, g) in last.iter().enumerate() {
            assert!(state.nodes[i].growth_length >= *g);
        }
        for n in state.nodes.iter() {
            assert!(n.growth_length <= GROWTH_FULL);
            assert!(n.depth <= n.max_tree_depth);
            for &c in n.children.iter() {
                assert!(c < state.nodes.len());
            }
        }
        last = state.nodes.iter().map(|n| n.growth_length).collect();
    }
}

#[test]
fn second_unforced_pass_draws_only_points() {
    let mut state = init(21);
    for _ in 0..15 {
        tick(&mut state, false);
    }
    let first = state.draw_lines(false);
    assert!(!first.is_empty());
    let second = state.draw_lines(false);
    assert!(!second.is_empty());
    for line in second.iter() {
        assert_eq!(line.from, line.to);
    }
    let unfinished = state.nodes.iter().filter(|n| !n.fully_drawn).count();
    assert_eq!(second.len(), unfinished);
}

#[test]
fn forced_pass_draws_every_segment_from_its_start() {
    let mut state = init(8);
    for _ in 0..20 {
        tick(&mut state, false);
    }
    let lines = tick(&mut state, true);
    assert_eq!(lines.len(), state.nodes.len());
    assert!(!state.force_redraw);
    assert_eq!(lines[0].from, state.nodes[0].start);
    assert_eq!(lines[1].from, state.nodes[1].start);
}

#[test]
fn first_tick_draws_everything_from_the_start() {
    let mut state = init(2);
    let lines = tick(&mut state, false);
    assert_eq!(lines.len(), 5);
    for (line, n) in lines.iter().zip(state.nodes.iter()) {
        assert_eq!(line.from, n.start);
    }
    assert!(!state.force_redraw);
}

#[test]
fn draw_step_emits_the_grown_part() {
    let mut n = segment(p(0, 0), p(UNIT, 0), 0);
    n.growth_length = 500_000;
    let line = n.draw_step(false);
    assert_eq!(line, Some(Line { from: p(0, 0), to: p(43_750, 0) }));
    assert_eq!(n.last_drawn_end, p(43_750, 0));
    assert!(!n.fully_drawn);
    n.growth_length = GROWTH_FULL;
    let line = n.draw_step(false);
    assert_eq!(line, Some(Line { from: p(43_750, 0), to: p(UNIT, 0) }));
    assert!(n.fully_drawn);
    assert_eq!(n.draw_step(false), None);
    assert_eq!(n.draw_step(true), Some(Line { from: p(0, 0), to: p(UNIT, 0) }));
}

#[test]
fn nearest_intersection_is_the_first_closest_point() {
    let n = segment(p(0, 0), p(10, 0), 0);
    assert_eq!(n.find_nearest_intersection(Vec::new()), None);
    let pts = vec![p(5, 5), p(3, 4), p(-4, 3), p(6, 0)];
    assert_eq!(n.find_nearest_intersection(pts), Some(p(3, 4)));
}

#[test]
fn segments_report_where_they_cross() {
    let a = segment(p(0, 0), p(UNIT, UNIT), 0);
    let b = segment(p(UNIT, 0), p(0, UNIT), 0);
    assert_eq!(a.intersects(&b), Some(p(UNIT / 2, UNIT / 2)));
}

#[test]
fn new_segment_draws_its_parameters() {
    let mut rng = Rng::new(1);
    let n = TreeNode::new(0, 0, 100, 100, 2, &mut rng);
    assert_eq!(n.grow_speed, 50_832);
    assert!((LIMB_LENGTH_MIN..LIMB_LENGTH_MAX).contains(&n.limb_length));
    assert_eq!(n.last_drawn_end, p(0, 0));
    assert_eq!(n.depth, 2);
    assert_eq!(n.growth_length, 0);
}

#[test]
fn init_draws_each_segment_from_the_seed_in_order() {
    for seed in [0u64, 1, 77, 123_456_789] {
        let state = init(seed);
        let mut rng = Rng::new(seed);
        for i in 0..5 {
            let speed = rng.uniform(GROW_SPEED_MIN, GROW_SPEED_MAX);
            let limb = rng.uniform(LIMB_LENGTH_MIN, LIMB_LENGTH_MAX);
            assert_eq!(state.nodes[i].grow_speed, speed);
            assert_eq!(state.nodes[i].limb_length, limb);
            assert_eq!(state.nodes[i].last_drawn_end, state.nodes[i].start);
        }
        assert_eq!(state.rng.state, rng.state);
        assert_eq!(state.nodes[0].depth, 0);
    }
    let a = init(1);
    let b = init(2);
    assert_ne!(a.nodes[0].grow_speed, b.nodes[0].grow_speed);
}

#[test]
fn starting_segments_are_each_in_the_index() {
    let state = init(5);
    for (i, n) in state.nodes.iter().enumerate() {
        let found = state.segments_near(Rect::from_corners(n.start, n.end));
        assert!(found.contains(&i));
    }
    let everywhere = Rect::from_corners(p(-2 * UNIT, -2 * UNIT), p(2 * UNIT, 2 * UNIT));
    let mut all = state.segments_near(everywhere);
    all.sort();
    assert_eq!(all, vec![0, 1, 2, 3, 4]);
}

#[test]
fn one_split_appends_one_indexed_child_at_the_parent_end() {
    let root = segment(p(0, 0), p(0, UNIT / 20), 0);
    let mut state = State::new(root, Rng::new(9));
    state.split(0);
    assert_eq!(state.nodes.len(), 2);
    assert_eq!(state.nodes[0].children, vec![1]);
    let child = &state.nodes[1];
    assert_eq!(child.start, p(0, UNIT / 20));
    assert_eq!(child.last_drawn_end, child.start);
    assert_eq!(child.growth_length, 0);
    assert!(!child.fully_drawn);
    assert!(child.children.is_empty());
    assert!((GROW_SPEED_MIN..GROW_SPEED_MAX).contains(&child.grow_speed));
    assert!((LIMB_LENGTH_MIN..LIMB_LENGTH_MAX).contains(&child.limb_length));
    let everywhere = Rect::from_corners(p(-2 * UNIT, -2 * UNIT), p(2 * UNIT, 2 * UNIT));
    let mut all = state.segments_near(everywhere);
    all.sort();
    assert_eq!(all, vec![0, 1]);
}

#[test]
fn full_redraw_is_due_when_asked_or_resized() {
    let mut state = init(3);
    assert!(state.full_redraw_due(false));
    tick(&mut state, false);
    assert!(!state.full_redraw_due(false));
    assert!(state.full_redraw_due(true));
}

#[test]
fn splitting_a_segment_of_length_zero_gives_a_full_limb() {
    let root = TreeNode::with_params(p(0, 0), p(0, 0), 0, 0, 3_000);
    let mut state = State::new(root, Rng::new(4));
    state.split(0);
    let child = &state.nodes[1];
    assert_eq!(child.start, p(0, 0));
    let dx = (child.end.x - child.start.x) as f64;
    let dy = (child.end.y - child.start.y) as f64;
    let length = (dx * dx + dy * dy).sqrt();
    assert!((length - 3_000.0).abs() <= 2.0);
    assert!(dx > 0.0);
}

#[test]
fn each_crossed_segment_gives_its_point_once() {
    let h = UNIT / 2;
    let root = segment(p(-h, -3 * h), p(-h, -2 * h), 0);
    let mut state = State::new(root, Rng::new(1));
    state.add_segment(0, segment(p(-h, h), p(h, -h), 0));
    state.add_segment(0, segment(p(-h, -h), p(h, h), 0));
    state.add_segment(0, segment(p(h / 2, -h), p(h / 2, h), 0));
    let candidate = TreeNode::with_params(p(-h, 0), p(h, 0), 1, 40_000, 2_000);
    let mut found = state.find_intersecting_points(&candidate);
    found.sort_by_key(|q| (q.x, q.y));
    assert_eq!(found, vec![p(0, 0), p(0, 0), p(h / 2, 0)]);
}
