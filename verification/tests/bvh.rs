use cpu_path_tracing::bvh::{
    build_tree, SplitChoice, SplitPlanner,
    corner_uses_max, partition_by_bucket, stops_splitting, Bvh, BvhState, BvhTreeNode,
    BvhTreeNodeLeaf, BvhVisitor, MAX_BVH_DEPTH,
};
use cpu_path_tracing::geometry::RayDebugInfo;
use cpu_path_tracing::walk_log::LoggedVisitor;

/// Primitives are points on a line; bounds are closed intervals.
type Interval = (i32, i32);

fn leaf(bounds: Interval, depth: usize, start: usize, end: usize) -> BvhTreeNodeLeaf<Interval> {
    BvhTreeNodeLeaf { bounds, depth, range: start..end }
}

/// Points 0..8 at positions 0, 10, ..., 70; split into [0..4) and [4..8), the right half
/// split again into [4..6) and [6..8).
fn sample_tree() -> BvhTreeNode<Interval> {
    let root = leaf((0, 70), 1, 0, 8);
    let BvhTreeNode::Interior(mut interior) = root.split(4, 0, (0, 30), (40, 70)) else {
        panic!("split gives an interior node")
    };
    let BvhTreeNode::Leaf(right) = *interior.right else { panic!("right child is a leaf") };
    interior.right = Box::new(right.split(2, 0, (40, 50), (60, 70)));
    BvhTreeNode::Interior(interior)
}

/// Walks `bvh` with `visitor` and gives the visitor back.
fn walk<V: BvhVisitor<i32, Interval>>(
    bvh: &Bvh<i32, Interval>,
    dir: [bool; 3],
    visitor: V,
) -> (RayDebugInfo, V) {
    let mut logged = LoggedVisitor::new(visitor);
    let (info, _) = bvh.traverse(dir, &mut logged);
    (info, logged.into_visitor())
}

fn sample_bvh() -> (Bvh<i32, Interval>, BvhState) {
    let primitives: Vec<i32> = (0..8).map(|i| i * 10).collect();
    Bvh::from_tree(primitives, Some(sample_tree()))
}

struct PointQuery {
    lo: i32,
    hi: i32,
    hits: Vec<i32>,
    tested: usize,
}

impl BvhVisitor<i32, Interval> for PointQuery {
    fn enters(&mut self, bounds: &Interval) -> bool {
        bounds.0 <= self.hi && self.lo <= bounds.1
    }

    fn visit_primitive(&mut self, primitive: &i32) {
        self.tested += 1;
        if self.lo <= *primitive && *primitive <= self.hi {
            self.hits.push(*primitive);
        }
    }
}

#[test]
fn bvh_flatten_layout() {
    let (bvh, state) = sample_bvh();
    let nodes = bvh.nodes();
    assert_eq!(nodes.len(), 5);
    // root: interior, right child after the 1-node left subtree
    assert_eq!(nodes[0].primitive_count, 0);
    assert_eq!(nodes[0].index, 2);
    assert_eq!(nodes[0].depth, 1);
    // left leaf
    assert_eq!((nodes[1].index, nodes[1].primitive_count, nodes[1].depth), (0, 4, 2));
    // right interior, its own right child at 4
    assert_eq!((nodes[2].index, nodes[2].primitive_count), (4, 0));
    assert_eq!((nodes[3].index, nodes[3].primitive_count, nodes[3].depth), (4, 2, 3));
    assert_eq!((nodes[4].index, nodes[4].primitive_count, nodes[4].depth), (6, 2, 3));
    assert_eq!(bvh.root_bounds(), Some(&(0, 70)));
    assert_eq!(bvh.primitives().len(), 8);
    assert_eq!(state.leaf_node_count, 3);
    assert_eq!(state.max_leaf_node_primitive_count, 4);
    assert_eq!(state.max_leaf_node_depth, 3);
}

#[test]
fn bvh_empty_has_no_nodes() {
    let (bvh, state) = Bvh::<i32, Interval>::from_tree(Vec::new(), None);
    assert!(bvh.nodes().is_empty());
    assert_eq!(bvh.root_bounds(), None);
    assert_eq!(state.leaf_node_count, 0);
    let query = PointQuery { lo: 0, hi: 100, hits: Vec::new(), tested: 0 };
    let (info, query) = walk(&bvh, [false; 3], query);
    assert_eq!(info.bounds_test_count, 0);
    assert_eq!(info.primitive_test_count, 0);
    assert_eq!(query.tested, 0);
    assert!(query.hits.is_empty());
}

#[test]
fn bvh_traverse_finds_points_in_range() {
    let (bvh, _) = sample_bvh();
    let query = PointQuery { lo: 35, hi: 55, hits: Vec::new(), tested: 0 };
    let (info, mut query) = walk(&bvh, [false; 3], query);
    query.hits.sort();
    assert_eq!(query.hits, vec![40, 50]);
    // root, left leaf (rejected), right interior, leaf [40, 50], leaf [60, 70] (rejected)
    assert_eq!(info.bounds_test_count, 5);
    assert_eq!(info.primitive_test_count, 2);
    assert_eq!(query.tested, 2);
}

#[test]
fn bvh_traverse_tests_each_primitive_once() {
    let (bvh, _) = sample_bvh();
    for dir in [[false; 3], [true; 3]] {
        let query = PointQuery { lo: -100, hi: 100, hits: Vec::new(), tested: 0 };
        let (info, query) = walk(&bvh, dir, query);
        assert_eq!(info.bounds_test_count, 5);
        assert_eq!(info.primitive_test_count, 8);
        let mut hits = query.hits.clone();
        hits.sort();
        assert_eq!(hits, vec![0, 10, 20, 30, 40, 50, 60, 70]);
    }
    // near side first: with the negative direction the right half is walked first
    let query = PointQuery { lo: -100, hi: 100, hits: Vec::new(), tested: 0 };
    let (_, query) = walk(&bvh, [true, false, false], query);
    assert_eq!(query.hits, vec![60, 70, 40, 50, 0, 10, 20, 30]);
}

/// Refuses exactly one node's bounds and records every primitive it is handed.
struct RefuseOne {
    refused: Interval,
    seen: Vec<i32>,
}

impl BvhVisitor<i32, Interval> for RefuseOne {
    fn enters(&mut self, bounds: &Interval) -> bool {
        *bounds != self.refused
    }

    fn visit_primitive(&mut self, primitive: &i32) {
        self.seen.push(*primitive);
    }
}

#[test]
fn bvh_traverse_skips_only_refused_subtrees() {
    let (bvh, _) = sample_bvh();
    // refusing a leaf skips its two primitives and nothing else
    let query = RefuseOne { refused: (40, 50), seen: Vec::new() };
    let (info, mut query) = walk(&bvh, [false; 3], query);
    query.seen.sort();
    assert_eq!(query.seen, vec![0, 10, 20, 30, 60, 70]);
    assert_eq!(info.primitive_test_count, 6);
    assert_eq!(info.bounds_test_count, 5);
    // refusing an interior node skips its whole subtree without testing its children
    let query = RefuseOne { refused: (40, 70), seen: Vec::new() };
    let (info, query) = walk(&bvh, [false; 3], query);
    assert_eq!(query.seen, vec![0, 10, 20, 30]);
    assert_eq!(info.bounds_test_count, 3);
    // refusing the root skips everything
    let query = RefuseOne { refused: (0, 70), seen: Vec::new() };
    let (info, query) = walk(&bvh, [true; 3], query);
    assert!(query.seen.is_empty());
    assert_eq!((info.bounds_test_count, info.primitive_test_count), (1, 0));
}

#[test]
fn bvh_traverse_missing_root() {
    let (bvh, _) = sample_bvh();
    let query = PointQuery { lo: 500, hi: 600, hits: Vec::new(), tested: 0 };
    let (info, query) = walk(&bvh, [false; 3], query);
    assert_eq!(info.bounds_test_count, 1);
    assert_eq!(info.primitive_test_count, 0);
    assert!(query.hits.is_empty());
}

#[test]
fn bvh_partition_by_bucket() {
    let mut primitives = vec!['a', 'b', 'c', 'd', 'e', 'f'];
    let mut buckets = vec![7u32, 1, 9, 3, 0, 11];
    let mid = partition_by_bucket(&mut primitives, &mut buckets, 5);
    assert_eq!(mid, 3);
    for k in 0..mid {
        assert!(buckets[k] < 5);
    }
    for k in mid..buckets.len() {
        assert!(buckets[k] >= 5);
    }
    // primitives moved together with their buckets
    let mut pairs: Vec<(char, u32)> = primitives.iter().copied().zip(buckets.iter().copied()).collect();
    pairs.sort();
    assert_eq!(pairs, vec![('a', 7), ('b', 1), ('c', 9), ('d', 3), ('e', 0), ('f', 11)]);
}

#[test]
fn bvh_partition_edge_cases() {
    let mut p: Vec<u8> = Vec::new();
    let mut b: Vec<u32> = Vec::new();
    assert_eq!(partition_by_bucket(&mut p, &mut b, 3), 0);
    let mut p = vec![1u8, 2, 3];
    let mut b = vec![0u32, 1, 2];
    assert_eq!(partition_by_bucket(&mut p, &mut b, 12), 3);
    assert_eq!(p, vec![1, 2, 3]);
    let mut b2 = vec![5u32, 6, 7];
    assert_eq!(partition_by_bucket(&mut p, &mut b2, 0), 0);
}

#[test]
fn bvh_split_leaf_ranges() {
    let node = leaf((0, 9), 4, 10, 20).split(3, 2, (0, 2), (3, 9));
    let BvhTreeNode::Interior(interior) = node else { panic!("interior expected") };
    assert_eq!(interior.depth, 4);
    assert_eq!(interior.split_axis, 2);
    let BvhTreeNode::Leaf(l) = *interior.left else { panic!() };
    let BvhTreeNode::Leaf(r) = *interior.right else { panic!() };
    assert_eq!((l.range.clone(), l.depth, l.bounds), (10..13, 5, (0, 2)));
    assert_eq!((r.range.clone(), r.depth, r.bounds), (13..20, 5, (3, 9)));
}

#[test]
fn bvh_split_stopping_rule() {
    assert!(stops_splitting(4, 1));
    assert!(stops_splitting(0, 5));
    assert!(stops_splitting(1000, 32));
    assert!(!stops_splitting(5, 1));
    assert!(!stops_splitting(1000, 31));
}

#[test]
fn bvh_state_add_leaf_tracks_maxima() {
    let mut state = BvhState::new();
    state.add_leaf(&leaf((0, 0), 3, 0, 5));
    state.add_leaf(&leaf((0, 0), 7, 5, 7));
    state.add_leaf(&leaf((0, 0), 2, 7, 16));
    assert_eq!(state.leaf_node_count, 3);
    assert_eq!(state.max_leaf_node_primitive_count, 9);
    assert_eq!(state.max_leaf_node_depth, 7);
}

#[test]
fn bounds_corner_bits() {
    assert_eq!(corner_uses_max(0), (false, false, false));
    assert_eq!(corner_uses_max(1), (true, false, false));
    assert_eq!(corner_uses_max(2), (false, true, false));
    assert_eq!(corner_uses_max(4), (false, false, true));
    assert_eq!(corner_uses_max(7), (true, true, true));
    assert_eq!(corner_uses_max(6), (false, true, true));
}

#[test]
fn bvh_split_chain_stays_within_depth_limit() {
    // keep splitting off one primitive until the stopping rule says so
    let n = 100usize;
    let mut depth = 1usize;
    let mut start = 0usize;
    let mut leaves = 0usize;
    while !stops_splitting(n - start, depth) {
        let node = leaf((0, 0), depth, start, n).split(1, 0, (0, 0), (0, 0));
        let BvhTreeNode::Interior(i) = node else { panic!() };
        let BvhTreeNode::Leaf(right) = *i.right else { panic!() };
        leaves += 1;
        depth = right.depth;
        start = right.range.start;
    }
    assert_eq!(depth, MAX_BVH_DEPTH);
    assert_eq!(leaves, 31);
    assert_eq!(n - start, 69);
}

#[test]
fn bvh_tree_walkable_checks() {
    assert!(sample_tree().is_walkable(8));
    assert!(!sample_tree().is_walkable(7));
    assert!(BvhTreeNode::Leaf(leaf((0, 0), 1, 0, 65535)).is_walkable(65535));
    // a leaf of more than u16::MAX primitives does not fit a flattened node
    assert!(!BvhTreeNode::Leaf(leaf((0, 0), 1, 0, 65536)).is_walkable(65536));
    // an empty leaf is not part of a finished build
    assert!(!BvhTreeNode::Leaf(leaf((0, 0), 1, 0, 0)).is_walkable(0));
    // split axes are 0, 1 or 2
    let bad_axis = leaf((0, 70), 1, 0, 8).split(4, 3, (0, 30), (40, 70));
    assert!(!bad_axis.is_walkable(8));
}

/// Splits a run of points on a line at the middle of its bounds, into 12 buckets.
struct MiddleSplit;

impl SplitPlanner<i32, Interval> for MiddleSplit {
    fn choose_split(&self, leaf: &BvhTreeNodeLeaf<Interval>, points: &[i32]) -> Option<SplitChoice<Interval>> {
        let (lo, hi) = leaf.bounds;
        if hi <= lo {
            return None;
        }
        let mid = lo + (hi - lo) / 2;
        let left: Vec<i32> = points.iter().copied().filter(|&p| p <= mid).collect();
        let right: Vec<i32> = points.iter().copied().filter(|&p| p > mid).collect();
        if left.is_empty() || right.is_empty() {
            return None;
        }
        Some(SplitChoice {
            split_axis: 0,
            split_index: 1,
            left_bounds: (*left.iter().min().unwrap(), *left.iter().max().unwrap()),
            right_bounds: (*right.iter().min().unwrap(), *right.iter().max().unwrap()),
        })
    }

    fn bucket(&self, leaf: &BvhTreeNodeLeaf<Interval>, _axis: usize, point: &i32) -> u32 {
        let (lo, hi) = leaf.bounds;
        if *point <= lo + (hi - lo) / 2 { 0 } else { 1 }
    }
}

fn leaves(t: &BvhTreeNode<Interval>, out: &mut Vec<(usize, usize, usize)>) {
    match t {
        BvhTreeNode::Leaf(l) => out.push((l.range.start, l.range.end, l.depth)),
        BvhTreeNode::Interior(i) => {
            leaves(&i.left, out);
            leaves(&i.right, out);
        }
    }
}

#[test]
fn bvh_build_tree_partitions_and_tiles() {
    let mut points: Vec<i32> = vec![70, 3, 55, 12, 90, 41, 8, 66, 27, 99, 1, 50];
    let root = leaf((1, 99), 1, 0, points.len());
    let tree = build_tree(root, &mut points, &MiddleSplit);
    let mut sorted = points.clone();
    sorted.sort();
    assert_eq!(sorted, vec![1, 3, 8, 12, 27, 41, 50, 55, 66, 70, 90, 99]);
    let mut runs = Vec::new();
    leaves(&tree, &mut runs);
    assert_eq!(runs.first().unwrap().0, 0);
    assert_eq!(runs.last().unwrap().1, 12);
    for w in runs.windows(2) {
        assert_eq!(w[0].1, w[1].0);
    }
    assert!(runs.iter().all(|r| r.1 - r.0 <= 4 && r.2 >= 2));
    assert!(tree.is_walkable(12));
    let (bvh, _) = Bvh::from_tree(points.clone(), Some(tree));
    assert_eq!(bvh.primitives().len(), 12);
}

#[test]
fn bvh_build_tree_keeps_small_leaf() {
    let mut points: Vec<i32> = vec![5, 1, 3];
    let tree = build_tree(leaf((1, 5), 1, 0, 3), &mut points, &MiddleSplit);
    assert_eq!(points, vec![5, 1, 3]);
    match tree {
        BvhTreeNode::Leaf(l) => assert_eq!((l.range.start, l.range.end, l.depth), (0, 3, 1)),
        BvhTreeNode::Interior(_) => panic!("three points stay in one leaf"),
    }
}
