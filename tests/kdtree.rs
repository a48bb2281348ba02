use kdtree_radius::{
    distance_squared, point_within, KdTree, KdTreeNoBorrow, KdTreeNode, PresortedOrder,
    SortingStrategy,
};

const STRATEGIES: [SortingStrategy; 5] = [
    SortingStrategy::StableSort,
    SortingStrategy::UnstableSort,
    SortingStrategy::ShellSort,
    SortingStrategy::HeapSort,
    SortingStrategy::QuickSort,
];

fn sorted(mut v: Vec<usize>) -> Vec<usize> {
    v.sort();
    v
}

fn brute_force<const D: usize>(points: &[[i32; D]], query: [i32; D], radius: i64) -> Vec<usize> {
    let mut out = Vec::new();
    if radius < 0 {
        return out;
    }
    for (i, p) in points.iter().enumerate() {
        let mut d2: i128 = 0;
        for a in 0..D {
            let delta = p[a] as i128 - query[a] as i128;
            d2 += delta * delta;
        }
        if d2 <= radius as i128 * radius as i128 {
            out.push(i);
        }
    }
    out
}

/// A deterministic spread of points with repeated coordinates.
fn scattered(n: usize) -> Vec<[i32; 3]> {
    let mut state: u64 = 0x2545_f491_4f6c_dd1d;
    let mut points = Vec::new();
    for _ in 0..n {
        let mut p = [0i32; 3];
        for a in 0..3 {
            state ^= state << 13;
            state ^= state >> 7;
            state ^= state << 17;
            p[a] = (state % 21) as i32 - 10;
        }
        points.push(p);
    }
    points
}

fn check_structure(tree: &[KdTreeNode], n: usize) {
    assert_eq!(tree.len(), n);
    if n == 0 {
        return;
    }
    let mut seen = vec![false; n];
    for node in tree {
        assert!(node.index < n);
        assert!(!seen[node.index]);
        seen[node.index] = true;
    }
    let mut listed = vec![0usize; n];
    for (i, node) in tree.iter().enumerate() {
        if let (Some(a), Some(b)) = (node.children[0], node.children[1]) {
            assert_ne!(a, b);
        }
        for c in node.children.iter().flatten() {
            assert!(*c > i && *c < n);
            assert_eq!(tree[*c].parent, i);
            listed[*c] += 1;
        }
    }
    assert_eq!(listed[0], 0);
    for k in 1..n {
        assert_eq!(listed[k], 1);
        assert!(tree[k].parent < k);
    }
}

fn subtree_size(tree: &[KdTreeNode], k: usize) -> usize {
    1 + tree[k]
        .children
        .iter()
        .flatten()
        .map(|c| subtree_size(tree, *c))
        .sum::<usize>()
}

fn check_median_shape(tree: &[KdTreeNode]) {
    for k in 0..tree.len() {
        let s = subtree_size(tree, k);
        let low = tree[k].children[0].map_or(0, |c| subtree_size(tree, c));
        let high = tree[k].children[1].map_or(0, |c| subtree_size(tree, c));
        assert_eq!(low, s / 2);
        assert_eq!(high, s - s / 2 - 1);
    }
}

fn all_within_unpruned<const D: usize>(
    tree: &[KdTreeNode],
    points: &[[i32; D]],
    query: [i32; D],
    radius: i64,
) -> Vec<usize> {
    let mut out = Vec::new();
    let mut stack = Vec::new();
    if !tree.is_empty() {
        stack.push(0usize);
    }
    while let Some(k) = stack.pop() {
        let i = tree[k].index;
        if point_within(&points[i], &query, radius) {
            out.push(i);
        }
        for c in tree[k].children.iter().flatten() {
            stack.push(*c);
        }
    }
    out
}

#[test]
fn kdtree_test_arr_5() {
    let points: [[i32; 2]; 5] = [[1, 0], [2, 2], [3, -1], [-1, 0], [0, 1]];
    let tree = KdTreeNoBorrow::from_points(&points);
    let nearest = tree.point_indices_within(&points, [0, 0], 1);
    assert_eq!(sorted(nearest), vec![0, 3, 4]);
}

#[test]
fn kdtree_test_arr_8() {
    let points: [[i32; 2]; 8] = [
        [1, 1],
        [-3, 3],
        [-2, 0],
        [0, 1],
        [-1, -2],
        [-3, -3],
        [3, 3],
        [2, -2],
    ];
    let tree = KdTree::from_points(&points);
    let nearest = tree.point_indices_within([0, 0], 3);
    assert_eq!(sorted(nearest), vec![0, 2, 3, 4, 7]);
}

#[test]
fn test_arr_8_shell() {
    let points: [[i32; 2]; 8] = [
        [1, 1],
        [-3, 3],
        [-2, 0],
        [0, 1],
        [-1, -2],
        [-3, -3],
        [3, 3],
        [2, -2],
    ];
    let tree = KdTree::from_points_with_strategy(&points, &SortingStrategy::ShellSort);
    let nearest = tree.point_indices_within([0, 0], 3);
    assert_eq!(sorted(nearest), vec![0, 2, 3, 4, 7]);
}

#[test]
fn test_arr_8_quick_iter() {
    let points: [[i32; 2]; 8] = [
        [1, 1],
        [-3, 3],
        [-2, 0],
        [0, 1],
        [-1, -2],
        [-3, -3],
        [3, 3],
        [2, -2],
    ];
    let tree = KdTree::from_points_with_strategy(&points, &SortingStrategy::QuickSort);
    let mut buffer = vec![];
    let mut nearest = tree.iter_point_indices_within_buffers([0, 0], 3, &mut buffer);
    let mut found = Vec::new();
    while let Some(point_index) = nearest.next() {
        found.push(point_index);
    }
    assert_eq!(sorted(found), vec![0, 2, 3, 4, 7]);
    assert!(buffer.is_empty());
}

/// The coordinates and the radius 2.2 are scaled by ten to stay integral.
#[test]
fn test_arr_12_non_owning() {
    let points: [[i32; 3]; 12] = [
        [90, 0, 0],
        [100, 0, 0],
        [110, 0, 0],
        [50, 0, 0],
        [60, 0, 0],
        [20, 0, 0],
        [70, 0, 0],
        [10, 0, 0],
        [30, 0, 0],
        [40, 0, 0],
        [0, 0, 0],
        [80, 0, 0],
    ];
    let tree = KdTreeNoBorrow::from_points(&points);
    let nearest = tree.point_indices_within(&points, [0, 0, 0], 22);
    assert_eq!(nearest.len(), 3);
    assert_eq!(sorted(nearest), vec![5, 7, 10]);
}

#[test]
fn lib_test_arr_5() {
    let points: [[i32; 2]; 5] = [[1, 0], [2, 2], [3, -1], [-1, 0], [0, 1]];
    let tree = KdTree::from_items(&points);
    check_structure(&tree.internal.tree, 5);
    let nearest = tree.nearest_within([0, 0], 1);
    assert_eq!(sorted(nearest), vec![0, 3, 4]);
}

#[test]
fn lib_test_arr_8() {
    let points: [[i32; 2]; 8] = [
        [1, 1],
        [-3, 3],
        [-2, 0],
        [0, 1],
        [-1, -2],
        [-3, -3],
        [3, 3],
        [2, -2],
    ];
    let tree = KdTree::from_items(&points);
    check_structure(&tree.internal.tree, 8);
    let nearest = tree.nearest_within([0, 0], 3);
    assert_eq!(sorted(nearest), vec![0, 2, 3, 4, 7]);
}

/// The coordinates and the radius 2.2 are scaled by ten to stay integral.
#[test]
fn test_arr_12() {
    let points: [[i32; 3]; 12] = [
        [90, 0, 0],
        [100, 0, 0],
        [110, 0, 0],
        [50, 0, 0],
        [60, 0, 0],
        [20, 0, 0],
        [70, 0, 0],
        [10, 0, 0],
        [30, 0, 0],
        [40, 0, 0],
        [0, 0, 0],
        [80, 0, 0],
    ];
    let tree = KdTree::from_items(&points);
    let nearest = tree.nearest_within([0, 0, 0], 22);
    assert_eq!(sorted(nearest), vec![5, 7, 10]);
}

#[test]
fn structure_holds_for_every_builder() {
    for n in [1usize, 2, 3, 7, 16, 33] {
        let points = scattered(n);
        for s in STRATEGIES.iter() {
            let plain = KdTreeNoBorrow::from_points_with_strategy(&points, s);
            let presorted = KdTreeNoBorrow::from_points_presort_with_strategy(&points, s);
            check_structure(&plain.tree, n);
            check_structure(&presorted.tree, n);
            check_median_shape(&plain.tree);
            check_median_shape(&presorted.tree);
        }
    }
}

#[test]
fn split_order_holds_along_each_axis() {
    let points = scattered(40);
    let tree = KdTreeNoBorrow::from_points_presort_with_strategy(&points, &SortingStrategy::HeapSort);
    let t = &tree.tree;
    let mut depth = vec![0usize; t.len()];
    for k in 1..t.len() {
        depth[k] = depth[t[k].parent] + 1;
    }
    for j in 0..t.len() {
        let mut child = j;
        while child != 0 {
            let parent = t[child].parent;
            let axis = depth[parent] % 3;
            let pv = points[t[parent].index][axis];
            let jv = points[t[j].index][axis];
            if t[parent].children[0] == Some(child) {
                assert!(jv <= pv);
            } else {
                assert!(jv >= pv);
            }
            child = parent;
        }
    }
}

#[test]
fn queries_match_an_exhaustive_scan() {
    let points = scattered(60);
    for s in STRATEGIES.iter() {
        let trees = [
            KdTreeNoBorrow::from_points_with_strategy(&points, s),
            KdTreeNoBorrow::from_points_presort_with_strategy(&points, s),
        ];
        for tree in trees.iter() {
            for (q, r) in [([0, 0, 0], 0i64), ([3, -4, 1], 5), ([-10, 10, -10], 9), ([1, 1, 1], 40)] {
                let expected = brute_force(&points, q, r);
                assert_eq!(sorted(tree.point_indices_within(&points, q, r)), expected);
            }
        }
    }
}

#[test]
fn pruned_and_unpruned_queries_agree() {
    let points = scattered(50);
    let tree = KdTreeNoBorrow::from_points(&points);
    for (q, r) in [([2, 2, 2], 4i64), ([-7, 0, 5], 6), ([9, 9, 9], 1)] {
        let pruned = sorted(tree.point_indices_within(&points, q, r));
        let full = sorted(all_within_unpruned(&tree.tree, &points, q, r));
        assert_eq!(pruned, full);
    }
}

#[test]
fn eager_and_lazy_queries_agree() {
    let points = scattered(45);
    let tree = KdTree::from_points_with_strategy(&points, &SortingStrategy::UnstableSort);
    for (q, r) in [([0, 0, 0], 7i64), ([5, -5, 5], 3), ([0, 0, 0], 100)] {
        let eager = sorted(tree.point_indices_within(q, r));
        let mut stack = Vec::new();
        let mut it = tree.iter_point_indices_within_buffers(q, r, &mut stack);
        let mut lazy = Vec::new();
        while let Some(i) = it.next() {
            lazy.push(i);
        }
        assert_eq!(eager, sorted(lazy));
    }
}

#[test]
fn reused_buffers_give_the_same_result() {
    let points = scattered(30);
    let tree = KdTree::from_points(&points);
    let mut result = Vec::new();
    let mut stack = Vec::new();
    tree.point_indices_within_buffers([1, 2, 3], 8, &mut result, &mut stack);
    assert!(stack.is_empty());
    let first = sorted(result.clone());
    result.clear();
    tree.point_indices_within_buffers([1, 2, 3], 8, &mut result, &mut stack);
    assert!(stack.is_empty());
    assert_eq!(sorted(result), first);
    assert_eq!(first, brute_force(&points, [1, 2, 3], 8));
}

#[test]
fn results_accumulate_across_queries() {
    let points: [[i32; 2]; 5] = [[1, 0], [2, 2], [3, -1], [-1, 0], [0, 1]];
    let tree = KdTreeNoBorrow::from_points(&points);
    let mut result = vec![99];
    let mut stack = Vec::new();
    tree.point_indices_within_buffers(&points, [0, 0], 1, &mut result, &mut stack);
    tree.point_indices_within_buffers(&points, [2, 2], 0, &mut result, &mut stack);
    assert_eq!(result[0], 99);
    assert_eq!(sorted(result[1..4].to_vec()), vec![0, 3, 4]);
    assert_eq!(sorted(result[4..].to_vec()), vec![1]);
}

#[test]
fn scenario_five_points_radius_one() {
    let points: [[i32; 2]; 5] = [[1, 0], [2, 2], [3, -1], [-1, 0], [0, 1]];
    for s in STRATEGIES.iter() {
        let tree = KdTree::from_points_with_strategy(&points, s);
        assert_eq!(sorted(tree.point_indices_within([0, 0], 1)), vec![0, 3, 4]);
    }
}

#[test]
fn scenario_twelve_collinear_points() {
    let points: Vec<[i32; 3]> = (0..12).map(|x| [x * 10, 0, 0]).collect();
    let tree = KdTree::from_points_presort_with_strategy(&points, &SortingStrategy::StableSort);
    let found = sorted(tree.point_indices_within([0, 0, 0], 22));
    assert_eq!(found, vec![0, 1, 2]);
}

#[test]
fn empty_point_set_gives_an_empty_tree() {
    let points: Vec<[i32; 2]> = Vec::new();
    let tree = KdTreeNoBorrow::from_points(&points);
    assert!(tree.tree.is_empty());
    assert!(tree.point_indices_within(&points, [0, 0], 10).is_empty());
    let mut stack = Vec::new();
    let mut it = tree.iter_point_indices_within_buffers(&points, [0, 0], 10, &mut stack);
    assert_eq!(it.next(), None);
}

#[test]
fn single_point_tree_has_no_children() {
    let points = [[4, 4]];
    let tree = KdTreeNoBorrow::from_points(&points);
    assert_eq!(tree.tree.len(), 1);
    assert_eq!(tree.tree[0].index, 0);
    assert_eq!(tree.tree[0].children, [None, None]);
    assert_eq!(tree.point_indices_within(&points, [4, 5], 1), vec![0]);
    assert!(tree.point_indices_within(&points, [4, 6], 1).is_empty());
}

#[test]
fn negative_radius_matches_nothing() {
    let points = scattered(20);
    let tree = KdTree::from_points(&points);
    assert!(tree.point_indices_within(points[3], -1).is_empty());
    assert_eq!(tree.point_indices_within(points[3], 0).contains(&3), true);
}

#[test]
fn equal_points_are_all_found() {
    let points = [[5, 5], [5, 5], [5, 5], [6, 5], [5, 5]];
    let tree = KdTree::from_points_with_strategy(&points, &SortingStrategy::HeapSort);
    assert_eq!(sorted(tree.point_indices_within([5, 5], 0)), vec![0, 1, 2, 4]);
}

#[test]
fn custom_sorter_builds_a_valid_tree() {
    let points = scattered(25);
    let tree = KdTree::from_points_with_points_sorter(&points, SortingStrategy::ShellSort);
    check_structure(&tree.internal.tree, 25);
    let tree2 = KdTree::from_points_presort_with_points_sorter(&points, SortingStrategy::QuickSort);
    check_structure(&tree2.internal.tree, 25);
    assert_eq!(sorted(tree2.point_indices_within([0, 0, 0], 6)), brute_force(&points, [0, 0, 0], 6));
}

#[test]
fn distance_is_exact() {
    assert_eq!(distance_squared::<[i32; 2], 2>(&[1, 2], &[4, 6]), 25);
    assert_eq!(distance_squared::<[i32; 3], 3>(&[0, 0, 0], &[-1, -1, -1]), 3);
    assert_eq!(
        distance_squared::<[i32; 2], 2>(&[i32::MIN, i32::MIN], &[i32::MAX, i32::MAX]),
        2 * (u32::MAX as u128) * (u32::MAX as u128)
    );
    assert_eq!(distance_squared::<(i32, i32), 2>(&(0, 0), &(3, 4)), 25);
    assert_eq!(distance_squared::<i32, 1>(&-3, &4), 49);
    assert!(point_within::<[i32; 2], 2>(&[0, 0], &[3, 4], 5));
    assert!(!point_within::<[i32; 2], 2>(&[0, 0], &[3, 4], 4));
    assert!(!point_within::<[i32; 2], 2>(&[0, 0], &[0, 0], -1));
}

#[test]
fn narrow_integer_points_are_supported() {
    let points: [[u8; 2]; 4] = [[0, 0], [255, 255], [1, 1], [3, 0]];
    let tree = KdTree::from_points(&points);
    assert_eq!(sorted(tree.point_indices_within([0, 0], 2)), vec![0, 2]);
    let scalars: [i16; 5] = [-300, 7, 12, -2, 300];
    let tree1 = KdTreeNoBorrow::from_points(&scalars);
    assert_eq!(sorted(tree1.point_indices_within(&scalars, 5, 7)), vec![1, 2, 3]);
    assert_eq!(distance_squared::<[i8; 2], 2>(&[-128, 0], &[127, 0]), 255 * 255);
}

#[test]
fn a_sorter_that_does_not_sort_still_gives_a_valid_tree() {
    let points = scattered(21);
    // identity orders are permutations of all indices, but not sorted on any axis
    let unsorted = PresortedOrder {
        orders: vec![(0..21).collect(), (0..21).collect(), (0..21).collect()],
        marks: vec![false; 21],
    };
    let tree = KdTreeNoBorrow::from_points_with_points_sorter(&points, unsorted);
    check_structure(&tree.tree, 21);
    check_median_shape(&tree.tree);
}
