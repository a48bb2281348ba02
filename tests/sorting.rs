use kdtree_radius::maybeuseful::{calculate_hash, partition, quickselect, random_index};
use kdtree_radius::utils::{
    heap_sort, point_axis_compare, quick_sort, shell_sort, sort_using_strategy, stable_sort,
    unstable_sort,
};
use kdtree_radius::{PointsSorter, SortingStrategy};

const POINTS: [i32; 21] = [
    1, 7, 56, 34, 576, 2, 4, 5, 6, 7, 9, 10, 9, 1, 2, 3, 100, 23452345, 34, 3, 4545,
];

fn reference_order(points: &[i32]) -> Vec<usize> {
    let mut indices = (0..points.len()).collect::<Vec<_>>();
    indices.sort_by(|a, b| points[*a].cmp(&points[*b]));
    indices
}

#[test]
fn test_quick_sort() {
    let points = POINTS;
    let mut indices = (0..points.len()).into_iter().collect::<Vec<_>>();
    let mut indices_2 = (0..points.len()).into_iter().collect::<Vec<_>>();

    quick_sort(&points, &mut indices, 0);
    indices_2.sort_unstable_by(|a, b| points[*a].partial_cmp(&points[*b]).unwrap_or(std::cmp::Ordering::Equal));
    for i in 0..points.len() {
        assert!(points[indices[i]] == points[indices_2[i]]);
    }
}

#[test]
fn test_shell_sort() {
    let points = POINTS;
    let mut indices = (0..points.len()).into_iter().collect::<Vec<_>>();
    let mut indices_2 = (0..points.len()).into_iter().collect::<Vec<_>>();

    shell_sort(&points, &mut indices, 0);
    indices_2.sort_unstable_by(|a, b| points[*a].partial_cmp(&points[*b]).unwrap_or(std::cmp::Ordering::Equal));
    for i in 0..points.len() {
        assert!(points[indices[i]] == points[indices_2[i]]);
    }
}

#[test]
fn test_heap_sort() {
    let points = POINTS;
    let mut indices = (0..points.len()).into_iter().collect::<Vec<_>>();
    let mut indices_2 = (0..points.len()).into_iter().collect::<Vec<_>>();

    heap_sort(&points, &mut indices, 0);
    indices_2.sort_by(|a, b| points[*a].partial_cmp(&points[*b]).unwrap_or(std::cmp::Ordering::Equal));
    for i in 0..points.len() {
        assert!(points[indices[i]] == points[indices_2[i]]);
    }
}

#[test]
fn every_strategy_agrees_with_a_stable_sort() {
    let reference = reference_order(&POINTS);
    for s in [
        SortingStrategy::StableSort,
        SortingStrategy::UnstableSort,
        SortingStrategy::ShellSort,
        SortingStrategy::HeapSort,
        SortingStrategy::QuickSort,
    ] {
        let mut indices = (0..POINTS.len()).rev().collect::<Vec<_>>();
        sort_using_strategy(&POINTS, &mut indices, 0, &s);
        let mut seen = indices.clone();
        seen.sort();
        assert_eq!(seen, (0..POINTS.len()).collect::<Vec<_>>());
        for i in 0..POINTS.len() {
            assert_eq!(POINTS[indices[i]], POINTS[reference[i]]);
        }
    }
}

#[test]
fn sorting_follows_the_chosen_axis() {
    let points: [[i32; 2]; 6] = [[3, 0], [1, 5], [2, -1], [0, 2], [5, 5], [4, -3]];
    let mut by_x = vec![0, 1, 2, 3, 4, 5];
    heap_sort(&points, &mut by_x, 0);
    assert_eq!(by_x, vec![3, 1, 2, 0, 5, 4]);
    let mut by_y = vec![0, 1, 2, 3, 4, 5];
    quick_sort(&points, &mut by_y, 1);
    let ys: Vec<i32> = by_y.iter().map(|i| points[*i][1]).collect();
    assert_eq!(ys, vec![-3, -1, 0, 2, 5, 5]);
}

#[test]
fn stable_sort_keeps_ties_in_order() {
    let points = [2, 1, 2, 1, 2, 0];
    let mut indices = vec![0, 1, 2, 3, 4, 5];
    stable_sort(&points, &mut indices, 0);
    assert_eq!(indices, vec![5, 1, 3, 0, 2, 4]);
}

#[test]
fn unstable_sort_orders_the_keys() {
    let points = [9, -4, 7, 0];
    let mut indices = vec![0, 1, 2, 3];
    unstable_sort(&points, &mut indices, 0);
    assert_eq!(indices, vec![1, 3, 2, 0]);
}

#[test]
fn sorters_handle_empty_and_single_inputs() {
    let points = [5];
    for s in [
        SortingStrategy::StableSort,
        SortingStrategy::UnstableSort,
        SortingStrategy::ShellSort,
        SortingStrategy::HeapSort,
        SortingStrategy::QuickSort,
    ] {
        let mut empty: Vec<usize> = Vec::new();
        sort_using_strategy(&points, &mut empty, 0, &s);
        assert!(empty.is_empty());
        let mut one = vec![0];
        sort_using_strategy(&points, &mut one, 0, &s);
        assert_eq!(one, vec![0]);
    }
}

#[test]
fn strategy_is_a_points_sorter() {
    let points = [3, 1, 2];
    let mut indices = vec![0, 1, 2];
    let mut s = SortingStrategy::ShellSort;
    s.sort_points(&points, &mut indices, 0);
    assert_eq!(indices, vec![1, 2, 0]);
    assert!(SortingStrategy::default() == SortingStrategy::QuickSort);
}

#[test]
fn compare_orders_by_axis() {
    let points: [[i32; 2]; 2] = [[1, 9], [2, 3]];
    assert_eq!(point_axis_compare(&points, 0, 1, 0), std::cmp::Ordering::Less);
    assert_eq!(point_axis_compare(&points, 0, 1, 1), std::cmp::Ordering::Greater);
    assert_eq!(point_axis_compare(&points, 1, 1, 1), std::cmp::Ordering::Equal);
}

#[test]
fn partition_places_the_chosen_pivot() {
    let points = [50, 10, 40, 20, 30];
    let mut indices = vec![0, 1, 2, 3, 4];
    let p = partition(&points, &mut indices, 2, 0);
    assert_eq!(p, 3);
    assert_eq!(indices[p], 2);
    for k in 0..p {
        assert!(points[indices[k]] < 40);
    }
    assert_eq!(points[indices[4]], 50);
}

#[test]
fn quickselect_finds_each_rank() {
    let reference = reference_order(&POINTS);
    for rank in 0..POINTS.len() {
        let mut indices = (0..POINTS.len()).collect::<Vec<_>>();
        let r = quickselect(&POINTS, &mut indices, rank, 0);
        assert_eq!(r, rank);
        assert_eq!(POINTS[indices[rank]], POINTS[reference[rank]]);
        for k in 0..rank {
            assert!(POINTS[indices[k]] <= POINTS[indices[rank]]);
        }
        for k in rank + 1..POINTS.len() {
            assert!(POINTS[indices[k]] >= POINTS[indices[rank]]);
        }
    }
}

#[test]
fn random_index_stays_in_range() {
    for len in 1..20usize {
        for seed in [-5, 0, 1, 7, 1000, i32::MAX] {
            assert!(random_index(len, seed) < len);
        }
    }
    assert_eq!(calculate_hash(42), calculate_hash(42));
}
