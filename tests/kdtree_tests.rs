use kdtree_accel::{
    edge_less, log2_int, max_depth_for, refine_verdict, sort_edges, BoundEdge, Bounds3i,
    EdgeType, KdTreeAccel, KdTreeParams,
};

fn bx(min: [i32; 3], max: [i32; 3]) -> Bounds3i {
    Bounds3i { p_min: min, p_max: max }
}

fn unit_boxes_along_x(n: usize) -> Vec<Bounds3i> {
    (0..n as i32).map(|i| bx([3 * i, 0, 0], [3 * i + 1, 1, 1])).collect()
}

fn scattered_boxes(n: usize) -> Vec<Bounds3i> {
    (0..n as i32)
        .map(|i| {
            let x = (i * 37) % 101;
            let y = (i * 53) % 89;
            let z = (i * 29) % 97;
            bx([x, y, z], [x + 1 + i % 5, y + 2, z + 1 + i % 3])
        })
        .collect()
}

/// Walks the subtree at `i`; returns the node after it and records, for each
/// leaf, its primitives and its depth.
fn walk(tree: &KdTreeAccel, i: usize, depth: u32, leaves: &mut Vec<(Vec<usize>, u32)>) -> usize {
    let node = &tree.nodes[i];
    if node.is_leaf {
        leaves.push((node.prim_indices.clone(), depth));
        i + 1
    } else {
        let end_below = walk(tree, i + 1, depth + 1, leaves);
        assert_eq!(end_below, node.above_child);
        walk(tree, node.above_child, depth + 1, leaves)
    }
}

fn leaves_of(tree: &KdTreeAccel) -> Vec<(Vec<usize>, u32)> {
    let mut leaves = Vec::new();
    let end = walk(tree, 0, 0, &mut leaves);
    assert_eq!(end, tree.nodes.len());
    leaves
}

#[test]
fn auto_depth_formula() {
    assert_eq!(max_depth_for(-1, 1), 8);
    assert_eq!(max_depth_for(-1, 1024), 21);
    assert_eq!(max_depth_for(0, 1024), 21);
    assert_eq!(max_depth_for(-1, 0), 8);
    assert_eq!(max_depth_for(-1, 2), 9);
    assert_eq!(max_depth_for(-1, 32), 15);
    assert_eq!(max_depth_for(5, 1024), 5);
    assert_eq!(max_depth_for(-1, usize::MAX), 90);
}

#[test]
fn log2_values() {
    assert_eq!(log2_int(0), 0);
    assert_eq!(log2_int(1), 0);
    assert_eq!(log2_int(2), 1);
    assert_eq!(log2_int(1023), 9);
    assert_eq!(log2_int(1024), 10);
}

#[test]
fn auto_depth_through_new() {
    let tree = KdTreeAccel::new(unit_boxes_along_x(1024), 80, 1, 500, 1, -1);
    assert_eq!(tree.max_depth, 21);
    let tree = KdTreeAccel::new(unit_boxes_along_x(1), 80, 1, 500, 1, -1);
    assert_eq!(tree.max_depth, 8);
}

#[test]
fn empty_input_gives_one_empty_leaf() {
    let tree = KdTreeAccel::new(Vec::new(), 80, 1, 500, 1, -1);
    assert_eq!(tree.nodes.len(), 1);
    assert!(tree.nodes[0].is_leaf);
    assert!(tree.nodes[0].prim_indices.is_empty());
    let b = tree.world_bound();
    assert_eq!(b.p_min, [i32::MAX; 3]);
    assert_eq!(b.p_max, [i32::MIN; 3]);
}

#[test]
fn one_primitive_gives_one_leaf() {
    for max_prims in [-3, 0, 1, 4] {
        let tree = KdTreeAccel::new(vec![bx([0, 0, 0], [4, 2, 1])], 80, 1, 500, max_prims, -1);
        assert_eq!(tree.nodes.len(), 1);
        assert!(tree.nodes[0].is_leaf);
        assert_eq!(tree.nodes[0].prim_indices, vec![0]);
    }
}

#[test]
fn two_disjoint_boxes_are_split() {
    let prims = vec![bx([0, 0, 0], [1, 1, 1]), bx([2, 0, 0], [3, 1, 1])];
    let tree = KdTreeAccel::new(prims, 80, 1, 500, 1, -1);
    assert_eq!(tree.nodes.len(), 3);
    let root = &tree.nodes[0];
    assert!(!root.is_leaf);
    assert_eq!(root.split_axis, 0);
    assert_eq!(root.split_pos, 1);
    assert_eq!(root.above_child, 2);
    assert!(tree.nodes[1].is_leaf);
    assert_eq!(tree.nodes[1].prim_indices, vec![0]);
    assert!(tree.nodes[2].is_leaf);
    assert_eq!(tree.nodes[2].prim_indices, vec![1]);
}

#[test]
fn split_search_cost_of_two_boxes() {
    let prims = vec![bx([0, 0, 0], [1, 1, 1]), bx([2, 0, 0], [3, 1, 1])];
    let tree = KdTreeAccel::new(prims.clone(), 80, 1, 500, 1, -1);
    let node = bx([0, 0, 0], [3, 1, 1]);
    let (edges, best) = tree.find_split(&node, &prims, &vec![0, 1], 0);
    let order: Vec<(i32, usize, EdgeType)> =
        edges.iter().map(|e| (e.t, e.prim_num, e.edge_type)).collect();
    assert_eq!(
        order,
        vec![
            (0, 0, EdgeType::Start),
            (1, 0, EdgeType::End),
            (2, 1, EdgeType::Start),
            (3, 1, EdgeType::End)
        ]
    );
    // 1 * 14 * 1000 + 80 * 1000 * (6 * 1 + 10 * 1)
    assert_eq!(best, Some((1, 1_294_000)));
    // A box flat on x has no split on x.
    let (_, none) = tree.find_split(&bx([0, 0, 0], [0, 1, 1]), &prims, &vec![0], 0);
    assert_eq!(none, None);
}

#[test]
fn empty_bonus_lowers_cost_of_empty_side() {
    let prims = vec![bx([0, 0, 0], [1, 1, 1])];
    let tree = KdTreeAccel::new(prims.clone(), 80, 1, 500, 1, -1);
    let node = bx([0, 0, 0], [4, 1, 1]);
    let (_, best) = tree.find_split(&node, &prims, &vec![0], 0);
    // Split at x = 1: total area 18, below 6 with one primitive, above 14
    // with none, so half the intersection term is waived.
    assert_eq!(best, Some((1, 1 * 18 * 1000 + 80 * 500 * 6)));
}

#[test]
fn world_bound_is_union_of_primitives() {
    let prims = scattered_boxes(40);
    let mut min = [i32::MAX; 3];
    let mut max = [i32::MIN; 3];
    for b in &prims {
        for a in 0..3 {
            min[a] = min[a].min(b.p_min[a]);
            max[a] = max[a].max(b.p_max[a]);
        }
    }
    let tree = KdTreeAccel::new(prims, 80, 1, 500, 1, -1);
    let wb = tree.world_bound();
    assert_eq!(wb.p_min, min);
    assert_eq!(wb.p_max, max);
}

#[test]
fn every_primitive_lies_in_a_leaf() {
    for n in [2usize, 3, 17, 64, 200] {
        let tree = KdTreeAccel::new(scattered_boxes(n), 80, 1, 500, 1, -1);
        let leaves = leaves_of(&tree);
        for p in 0..n {
            assert!(leaves.iter().any(|(prims, _)| prims.contains(&p)), "primitive {} missing", p);
        }
        for (prims, _) in &leaves {
            assert!(prims.iter().all(|&p| p < n));
        }
    }
}

#[test]
fn no_leaf_deeper_than_max_depth() {
    for max_depth in [1, 2, 3, -1] {
        let tree = KdTreeAccel::new(unit_boxes_along_x(300), 80, 1, 500, 1, max_depth);
        let leaves = leaves_of(&tree);
        assert!(leaves.iter().all(|(_, d)| *d <= tree.max_depth));
        if max_depth > 0 {
            assert_eq!(tree.max_depth, max_depth as u32);
            assert!(leaves.iter().any(|(_, d)| *d == tree.max_depth));
        }
    }
}

#[test]
fn depth_zero_budget_is_a_leaf() {
    let prims = unit_boxes_along_x(5);
    let mut tree = KdTreeAccel::new(prims.clone(), 80, 1, 500, 1, -1);
    tree.nodes.clear();
    let root = tree.bounds;
    tree.build_tree(0, &root, &prims, &vec![0, 1, 2, 3, 4], 0, 0);
    assert_eq!(tree.nodes.len(), 1);
    assert!(tree.nodes[0].is_leaf);
    assert_eq!(tree.nodes[0].prim_indices, vec![0, 1, 2, 3, 4]);
}

#[test]
fn leaf_verdicts() {
    // No split found.
    assert_eq!(refine_verdict(None, 100, 20, 0), (true, 1));
    // Cheaper split: taken, no bad refine.
    assert_eq!(refine_verdict(Some(99), 100, 2, 2), (false, 2));
    // Costlier split: a bad refine, still taken.
    assert_eq!(refine_verdict(Some(150), 100, 20, 0), (false, 1));
    // Third bad refine forces a leaf.
    assert_eq!(refine_verdict(Some(150), 100, 20, 2), (true, 3));
    // Over four times the leaf cost on a small node.
    assert_eq!(refine_verdict(Some(401), 100, 15, 0), (true, 1));
    // The same on a node of sixteen primitives is refined.
    assert_eq!(refine_verdict(Some(401), 100, 16, 0), (false, 1));
}

#[test]
fn edges_at_one_position_sort_start_first() {
    let mut edges = vec![
        BoundEdge::new(5, 2, false),
        BoundEdge::new(5, 1, true),
        BoundEdge::new(5, 0, false),
        BoundEdge::new(-2, 3, false),
        BoundEdge::new(5, 0, true),
    ];
    sort_edges(&mut edges);
    let order: Vec<(i32, usize, EdgeType)> =
        edges.iter().map(|e| (e.t, e.prim_num, e.edge_type)).collect();
    assert_eq!(
        order,
        vec![
            (-2, 3, EdgeType::End),
            (5, 0, EdgeType::Start),
            (5, 1, EdgeType::Start),
            (5, 0, EdgeType::End),
            (5, 2, EdgeType::End)
        ]
    );
    assert!(edge_less(&BoundEdge::new(5, 9, true), &BoundEdge::new(5, 0, false)));
    assert!(!edge_less(&BoundEdge::new(5, 0, false), &BoundEdge::new(5, 9, true)));
}

#[test]
fn building_twice_gives_the_same_tree() {
    let a = KdTreeAccel::new(scattered_boxes(120), 80, 1, 500, 2, -1);
    let b = KdTreeAccel::new(scattered_boxes(120), 80, 1, 500, 2, -1);
    assert_eq!(a.nodes.len(), b.nodes.len());
    for (x, y) in a.nodes.iter().zip(b.nodes.iter()) {
        assert_eq!(x.is_leaf, y.is_leaf);
        assert_eq!(x.split_axis, y.split_axis);
        assert_eq!(x.split_pos, y.split_pos);
        assert_eq!(x.above_child, y.above_child);
        assert_eq!(x.prim_indices, y.prim_indices);
    }
}

#[test]
fn edge_constructors() {
    let e = BoundEdge::new(7, 3, true);
    assert_eq!((e.t, e.prim_num, e.edge_type), (7, 3, EdgeType::Start));
    let e = BoundEdge::new(-7, 4, false);
    assert_eq!((e.t, e.prim_num, e.edge_type), (-7, 4, EdgeType::End));
    let d = BoundEdge::default();
    assert_eq!((d.t, d.prim_num, d.edge_type), (0, 0, EdgeType::Start));
}

#[test]
fn create_takes_defaults() {
    let ps = KdTreeParams {
        intersect_cost: None,
        traversal_cost: None,
        empty_bonus: None,
        max_prims: None,
        max_depth: None,
    };
    let tree = KdTreeAccel::create(unit_boxes_along_x(4), &ps);
    assert_eq!(tree.isect_cost, 80);
    assert_eq!(tree.traversal_cost, 1);
    assert_eq!(tree.empty_bonus, 500);
    assert_eq!(tree.max_prims, 1);
    assert_eq!(tree.max_depth, 11);
    let ps = KdTreeParams {
        intersect_cost: Some(20),
        traversal_cost: Some(3),
        empty_bonus: Some(0),
        max_prims: Some(8),
        max_depth: Some(4),
    };
    let tree = KdTreeAccel::create(unit_boxes_along_x(4), &ps);
    assert_eq!((tree.isect_cost, tree.traversal_cost, tree.empty_bonus), (20, 3, 0));
    assert_eq!((tree.max_prims, tree.max_depth), (8, 4));
    assert_eq!(tree.nodes.len(), 1);
}

#[test]
fn box_union() {
    let u = bx([0, 5, -2], [1, 6, 0]).union(&bx([-1, 7, -1], [0, 8, 3]));
    assert_eq!(u.p_min, [-1, 5, -2]);
    assert_eq!(u.p_max, [1, 8, 3]);
    let e = Bounds3i::empty().union(&bx([1, 2, 3], [4, 5, 6]));
    assert_eq!((e.p_min, e.p_max), ([1, 2, 3], [4, 5, 6]));
    assert_eq!(bx([0, 0, 0], [1, 5, 2]).maximum_extent(), 1);
    assert_eq!(bx([0, 0, 0], [3, 3, 3]).maximum_extent(), 2);
}

#[test]
fn empty_space_is_cut_off_with_the_bonus() {
    let prims = vec![bx([2, 0, 0], [3, 1, 1])];
    let mut tree = KdTreeAccel::new(prims.clone(), 80, 1, 500, 0, -1);
    tree.nodes.clear();
    let node = bx([1, 0, 0], [3, 1, 1]);
    tree.build_tree(0, &node, &prims, &vec![0], 8, 0);
    assert_eq!(tree.nodes.len(), 3);
    assert!(!tree.nodes[0].is_leaf);
    assert_eq!(tree.nodes[0].split_axis, 0);
    assert_eq!(tree.nodes[0].split_pos, 2);
    assert_eq!(tree.nodes[0].above_child, 2);
    assert!(tree.nodes[1].is_leaf);
    assert!(tree.nodes[1].prim_indices.is_empty());
    assert!(tree.nodes[2].is_leaf);
    assert_eq!(tree.nodes[2].prim_indices, vec![0]);
    // 1 * 10 * 1000 + 80 * 500 * 6: below empty, so the bonus applies.
    let (_, best) = tree.find_split(&node, &prims, &vec![0], 0);
    assert_eq!(best, Some((0, 250_000)));
}

#[test]
fn create_on_empty_input_is_one_empty_leaf() {
    let ps = KdTreeParams {
        intersect_cost: None,
        traversal_cost: None,
        empty_bonus: None,
        max_prims: None,
        max_depth: None,
    };
    let tree = KdTreeAccel::create(Vec::new(), &ps);
    assert_eq!(tree.nodes.len(), 1);
    assert!(tree.nodes[0].is_leaf);
    assert!(tree.nodes[0].prim_indices.is_empty());
    assert_eq!(tree.max_depth, 8);
}
