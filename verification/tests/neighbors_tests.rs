use rust_umap::descent::{approximate_nearest_neighbors_by, dedup_sorted_neighbors, missing_indices, top_k_among};
use rust_umap::neighbors::{
    exact_nearest_neighbors_by, exact_nearest_neighbors_to_reference_by, exact_top_k_neighbors,
    inverse_neighbor_count, push_top_k_neighbor,
};
use std::collections::HashSet;

/// The order key of a distance: its integer order is `f32::total_cmp`.
fn key(d: f32) -> u32 {
    let bits = d.to_bits();
    if bits >> 31 == 1 {
        !bits
    } else {
        bits | 0x8000_0000
    }
}

fn synthetic_data(n: usize, dim: usize) -> Vec<Vec<f32>> {
    let mut data = Vec::with_capacity(n);
    for i in 0..n {
        let cluster_shift = if i < n / 2 { 0.0 } else { 5.0 };
        let row = (0..dim)
            .map(|d| {
                let t = (i as f32 + 1.3 * d as f32) / n as f32;
                cluster_shift + (10.0 * t).sin() * 0.2 + (7.0 * t).cos() * 0.1
            })
            .collect::<Vec<f32>>();
        data.push(row);
    }
    data
}

fn euclidean(x: &[f32], y: &[f32]) -> f32 {
    x.iter().zip(y).map(|(a, b)| (a - b) * (a - b)).sum::<f32>().sqrt()
}

fn cosine(x: &[f32], y: &[f32]) -> f32 {
    let dot: f32 = x.iter().zip(y).map(|(a, b)| a * b).sum();
    let nx = x.iter().map(|a| a * a).sum::<f32>().sqrt();
    let ny = y.iter().map(|a| a * a).sum::<f32>().sqrt();
    if nx == 0.0 || ny == 0.0 {
        if nx == 0.0 && ny == 0.0 { 0.0 } else { 1.0 }
    } else {
        1.0 - dot / (nx * ny)
    }
}

fn knn_recall_excluding_self(exact: &[Vec<usize>], approx: &[Vec<usize>]) -> f32 {
    assert_eq!(exact.len(), approx.len());
    let mut matched = 0usize;
    let mut total = 0usize;
    for (exact_row, approx_row) in exact.iter().zip(approx.iter()) {
        assert_eq!(exact_row.len(), approx_row.len());
        if exact_row.len() <= 1 {
            continue;
        }
        let exact_set = exact_row.iter().skip(1).copied().collect::<HashSet<usize>>();
        for idx in approx_row.iter().skip(1) {
            if exact_set.contains(idx) {
                matched += 1;
            }
            total += 1;
        }
    }
    if total == 0 {
        1.0
    } else {
        matched as f32 / total as f32
    }
}

#[test]
fn inverse_neighbor_count_respects_model_n_neighbors() {
    assert_eq!(inverse_neighbor_count(3, 100), 3);
    assert_eq!(inverse_neighbor_count(15, 7), 7);
    assert_eq!(inverse_neighbor_count(2, 2), 2);
    assert_eq!(inverse_neighbor_count(4, 1), 1);
}

#[test]
fn inverse_neighbor_count_is_at_least_one() {
    assert_eq!(inverse_neighbor_count(0, 10), 1);
    assert_eq!(inverse_neighbor_count(5, 0), 1);
}

#[test]
fn push_top_k_keeps_the_k_smallest_in_order() {
    let mut row: Vec<(usize, u32)> = Vec::new();
    for (idx, k) in [(0usize, 50u32), (1, 10), (2, 30), (3, 10), (4, 5)] {
        push_top_k_neighbor(&mut row, idx, k, 3);
    }
    assert_eq!(row, vec![(4, 5), (1, 10), (3, 10)]);
}

#[test]
fn exact_top_k_breaks_ties_by_index() {
    let keys = [7u32, 3, 3, 9, 1, 3];
    let (idx, k) = exact_top_k_neighbors(keys.len(), 4, |j| keys[j]);
    assert_eq!(idx, vec![4, 1, 2, 5]);
    assert_eq!(k, vec![1, 3, 3, 3]);
    let (idx, _) = exact_top_k_neighbors(2, 4, |j| keys[j]);
    assert_eq!(idx, vec![1, 0]);
}

#[test]
fn exact_neighbors_match_brute_force() {
    let data = synthetic_data(40, 5);
    let k = 6;
    let (idx, keys) = exact_nearest_neighbors_by(data.len(), k, |i, j| key(euclidean(&data[i], &data[j])));
    for i in 0..data.len() {
        let mut all: Vec<(u32, usize)> =
            (0..data.len()).map(|j| (key(euclidean(&data[i], &data[j])), j)).collect();
        all.sort();
        let expect: Vec<usize> = all.iter().take(k).map(|p| p.1).collect();
        assert_eq!(idx[i], expect);
        assert_eq!(keys[i].len(), k);
        assert_eq!(idx[i][0], i);
    }
}

#[test]
fn exact_neighbors_to_reference_tie_break_is_deterministic() {
    let reference = vec![vec![1.0f32, 0.0], vec![0.0, 1.0], vec![-1.0, 0.0], vec![0.0, -1.0]];
    let query = vec![vec![0.0f32, 0.0]];
    let (idx, _) = exact_nearest_neighbors_to_reference_by(1, reference.len(), 3, |q, r| {
        key(euclidean(&query[q], &reference[r]))
    });
    assert_eq!(idx, vec![vec![0, 1, 2]]);
}

#[test]
fn missing_indices_lists_the_first_gaps() {
    assert_eq!(missing_indices(&[0, 2, 3], 8, 3), vec![1, 4, 5]);
    assert_eq!(missing_indices(&[1, 2], 4, 5), vec![0, 3]);
    assert_eq!(missing_indices(&[], 3, 0), Vec::<usize>::new());
}

#[test]
fn top_k_among_orders_by_key_then_index() {
    let keys = [4u32, 9, 1, 4, 4, 0, 2];
    let row = top_k_among(&[1, 3, 4, 6], 3, &|j: usize| keys[j]);
    assert_eq!(row, vec![(6, 2), (3, 4), (4, 4)]);
}

#[test]
fn dedup_sorted_neighbors_tops_up_from_the_smallest_indices() {
    let keys = [10u32, 1, 5, 2, 3, 0];
    let row = dedup_sorted_neighbors(&[3, 4], 4, keys.len(), &|j: usize| keys[j]);
    assert_eq!(row, vec![(1, 1), (3, 2), (4, 3), (0, 10)]);
    let row = dedup_sorted_neighbors(&[0, 2, 5], 2, keys.len(), &|j: usize| keys[j]);
    assert_eq!(row, vec![(5, 0), (2, 5)]);
}

fn assert_valid_rows(idx: &[Vec<usize>], n: usize, k: usize) {
    assert_eq!(idx.len(), n);
    for row in idx {
        assert_eq!(row.len(), k);
        let set: HashSet<usize> = row.iter().copied().collect();
        assert_eq!(set.len(), k);
        assert!(row.iter().all(|&j| j < n));
    }
}

#[test]
fn approximate_knn_recall_reasonable_euclidean() {
    let data = synthetic_data(240, 8);
    let k = 12;
    let dist = |i: usize, j: usize| key(euclidean(&data[i], &data[j]));
    let (exact_idx, _) = exact_nearest_neighbors_by(data.len(), k, dist);
    let (approx_idx, _) =
        approximate_nearest_neighbors_by(data.len(), k, 30, 8, 0x1234_5678_9ABC_DEF0, dist);
    assert_valid_rows(&approx_idx, data.len(), k);
    let recall = knn_recall_excluding_self(&exact_idx, &approx_idx);
    assert!(recall >= 0.70, "euclidean ann recall is too low: got {recall:.4}");
}

#[test]
fn approximate_knn_recall_reasonable_cosine() {
    let data = synthetic_data(220, 9);
    let k = 10;
    let dist = |i: usize, j: usize| key(cosine(&data[i], &data[j]));
    let (exact_idx, _) = exact_nearest_neighbors_by(data.len(), k, dist);
    let (approx_idx, _) =
        approximate_nearest_neighbors_by(data.len(), k, 28, 8, 0xCAFEBABE_DEADC0DE, dist);
    assert_valid_rows(&approx_idx, data.len(), k);
    let recall = knn_recall_excluding_self(&exact_idx, &approx_idx);
    assert!(recall >= 0.65, "cosine ann recall is too low: got {recall:.4}");
}

#[test]
fn approximate_knn_is_reproducible_with_same_seed() {
    let data = synthetic_data(120, 4);
    let dist = |i: usize, j: usize| key(euclidean(&data[i], &data[j]));
    let a = approximate_nearest_neighbors_by(data.len(), 8, 16, 5, 99, dist);
    let b = approximate_nearest_neighbors_by(data.len(), 8, 16, 5, 99, dist);
    assert_eq!(a, b);
}

#[test]
fn descent_with_a_full_initial_sample_is_exact() {
    let data = synthetic_data(40, 3);
    let dist = |i: usize, j: usize| key(euclidean(&data[i], &data[j]));
    let exact = exact_nearest_neighbors_by(data.len(), 6, dist);
    for rounds in [0, 3] {
        let approx = approximate_nearest_neighbors_by(data.len(), 6, data.len(), rounds, 7, dist);
        assert_eq!(approx, exact);
    }
}

#[test]
fn descent_rounds_do_not_lose_recall() {
    let data = synthetic_data(150, 4);
    let dist = |i: usize, j: usize| key(euclidean(&data[i], &data[j]));
    let (exact, _) = exact_nearest_neighbors_by(data.len(), 8, dist);
    let recall = |rows: &Vec<Vec<usize>>| -> usize {
        rows.iter()
            .zip(exact.iter())
            .map(|(a, e)| a.iter().filter(|x| e.contains(x)).count())
            .sum()
    };
    let (initial, _) = approximate_nearest_neighbors_by(data.len(), 8, 8, 0, 11, dist);
    let (refined, _) = approximate_nearest_neighbors_by(data.len(), 8, 8, 6, 11, dist);
    assert!(recall(&refined) > recall(&initial));
}

#[test]
fn descent_with_nan_distances_still_returns_full_rows() {
    let nan_key = key(f32::NAN);
    let (idx, keys) = approximate_nearest_neighbors_by(30, 5, 5, 4, 3, |_i: usize, _j: usize| nan_key);
    assert_eq!(idx.len(), 30);
    for (row, row_keys) in idx.iter().zip(keys.iter()) {
        assert_eq!(row.len(), 5);
        assert!(row.windows(2).all(|w| w[0] < w[1]));
        assert!(row_keys.iter().all(|&k| k == nan_key));
    }
}
