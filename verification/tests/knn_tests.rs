use rust_umap::knn::{
    check_dense_view_shape, check_flat_view_shape, knn_rows_include_self, precomputed_knn_error,
    precomputed_knn_indices_from_i64_flat, saturating_mul, validate_and_trim_precomputed_knn,
    validate_inverse_query, validate_precomputed_array_shapes, validate_precomputed_distance_values_flat,
    validate_transform_query, DistFacts, DistValue, PrecomputedKnnIssue, UsizeMatrixView,
};
use rust_umap::model::check_knn_metric;
use rust_umap::neighbors::exact_nearest_neighbors_by;
use rust_umap::types::{Metric, UmapError};

const SMOOTH_K_TOLERANCE: f32 = 1e-5;

fn invalid_message(e: UmapError) -> String {
    match e {
        UmapError::InvalidParameter(m) => m,
        other => panic!("expected an invalid parameter, got {:?}", other),
    }
}

/// What a caller finds of every distance of each row.
fn facts_of(dists: &[Vec<f32>]) -> Vec<Vec<DistFacts>> {
    dists
        .iter()
        .map(|row| {
            (0..row.len())
                .map(|c| DistFacts {
                    valid: row[c].is_finite() && row[c] >= 0.0,
                    drops: c > 0 && row[c] + SMOOTH_K_TOLERANCE < row[c - 1],
                })
                .collect()
        })
        .collect()
}

#[test]
fn array_shapes_are_checked_in_order() {
    assert!(validate_precomputed_array_shapes(5, 5, 3, 5, 3, 3).is_ok());
    assert_eq!(
        invalid_message(validate_precomputed_array_shapes(5, 5, 3, 5, 4, 3).unwrap_err()),
        "knn_indices and knn_dists must have identical shapes"
    );
    assert_eq!(
        invalid_message(validate_precomputed_array_shapes(6, 5, 3, 5, 3, 3).unwrap_err()),
        "knn row count must match data row count"
    );
    assert_eq!(
        invalid_message(validate_precomputed_array_shapes(5, 5, 3, 5, 3, 4).unwrap_err()),
        "knn columns must be >= n_neighbors (4)"
    );
}

#[test]
fn i64_flat_indices_become_rows() {
    let rows = precomputed_knn_indices_from_i64_flat(&[0, 1, 2, 1, 0, 2], 2, 3).unwrap();
    assert_eq!(rows, vec![vec![0, 1, 2], vec![1, 0, 2]]);
    assert_eq!(
        invalid_message(precomputed_knn_indices_from_i64_flat(&[0, 1, 2], 2, 3).unwrap_err()),
        "flat knn_indices length mismatch: expected 6, got 3"
    );
    assert_eq!(
        invalid_message(precomputed_knn_indices_from_i64_flat(&[0, -1, 2, 1, 0, 2], 2, 3).unwrap_err()),
        "knn indices must be non-negative integers"
    );
    assert_eq!(
        invalid_message(precomputed_knn_indices_from_i64_flat(&[0, 1], 2, 0).unwrap_err()),
        "flat knn_indices length mismatch: expected 0, got 2"
    );
}

#[test]
fn saturating_product_caps_at_max() {
    assert_eq!(saturating_mul(6, 7), 42);
    assert_eq!(saturating_mul(usize::MAX, 2), usize::MAX);
}

#[test]
fn matrix_views_check_their_length() {
    let data = [0usize, 1, 2, 3, 4, 5];
    let view = UsizeMatrixView::new(&data, 2, 3).unwrap();
    assert_eq!(view.n_rows, 2);
    assert_eq!(view.n_cols, 3);
    assert_eq!(
        invalid_message(UsizeMatrixView::new(&data, 4, 2).err().unwrap()),
        "usize matrix view length mismatch: expected 8, got 6"
    );
    assert_eq!(
        invalid_message(check_dense_view_shape(6, 6, 0).unwrap_err()),
        "dense matrix view must have at least one column"
    );
    assert_eq!(
        invalid_message(check_dense_view_shape(5, 2, 3).unwrap_err()),
        "dense matrix view length mismatch: expected 6, got 5"
    );
    assert!(check_flat_view_shape(0, 3, 0).is_ok());
    assert_eq!(
        invalid_message(check_flat_view_shape(4, 3, 1).unwrap_err()),
        "flat matrix view length mismatch: expected 3, got 4"
    );
}

#[test]
fn valid_precomputed_graph_is_trimmed_to_n_neighbors() {
    let indices = vec![vec![0, 1, 2, 3], vec![1, 2, 0, 3], vec![2, 3, 1, 0], vec![3, 2, 1, 0]];
    let dists = vec![
        vec![0.0f32, 1.0, 2.0, 3.0],
        vec![0.0, 0.5, 1.0, 1.0],
        vec![0.0, 0.1, 0.2, 9.0],
        vec![0.0, 2.0, 2.0, 2.0],
    ];
    let facts = facts_of(&dists);
    let (idx, d) = validate_and_trim_precomputed_knn(&indices, &dists, &facts, 4, 3).unwrap();
    assert_eq!(idx, vec![vec![0, 1, 2], vec![1, 2, 0], vec![2, 3, 1], vec![3, 2, 1]]);
    assert_eq!(d[2], vec![0.0, 0.1, 0.2]);
}

#[test]
fn precomputed_knn_reports_bad_distances_by_position() {
    let indices = vec![vec![0, 1], vec![1, 0]];
    let dists = vec![vec![0.0f32, f32::NAN], vec![0.0, 1.0]];
    let facts = facts_of(&dists);
    let issue = validate_and_trim_precomputed_knn(&indices, &dists, &facts, 2, 2).unwrap_err();
    assert_eq!(issue, PrecomputedKnnIssue::BadDistance { row: 0, col: 1 });
    assert!(invalid_message(precomputed_knn_error(issue, "", ""))
        .contains("distance must be finite and >= 0 at row 0, col 1"));

    let dists = vec![vec![0.0f32, 1.0], vec![0.0, -1.0]];
    let facts = facts_of(&dists);
    let issue = validate_and_trim_precomputed_knn(&indices, &dists, &facts, 2, 2).unwrap_err();
    assert_eq!(issue, PrecomputedKnnIssue::BadDistance { row: 1, col: 1 });
}

#[test]
fn precomputed_knn_reports_each_issue() {
    let dists = vec![vec![0.0f32, 1.0], vec![0.0, 1.0]];
    let facts = facts_of(&dists);
    let run = |indices: Vec<Vec<usize>>, dists: &Vec<Vec<f32>>, facts: &Vec<Vec<DistFacts>>, n: usize, k: usize| {
        validate_and_trim_precomputed_knn(&indices, dists, facts, n, k).unwrap_err()
    };
    assert_eq!(run(vec![vec![0, 1]], &dists, &facts, 2, 2), PrecomputedKnnIssue::RowCount);
    assert_eq!(run(vec![vec![0], vec![1, 0]], &dists, &facts, 2, 2), PrecomputedKnnIssue::TooFewColumns);
    assert_eq!(
        run(vec![vec![0, 1, 1], vec![1, 0]], &dists, &facts, 2, 2),
        PrecomputedKnnIssue::RowLengthMismatch
    );
    assert_eq!(
        run(vec![vec![0, 5], vec![1, 0]], &dists, &facts, 2, 2),
        PrecomputedKnnIssue::IndexOutOfRange { row: 0, col: 1 }
    );
    assert_eq!(
        run(vec![vec![0, 1], vec![1, 1]], &dists, &facts, 2, 2),
        PrecomputedKnnIssue::DuplicateIndex { row: 1, idx: 1 }
    );
    let falling = vec![vec![0.0f32, 1.0], vec![0.5, 0.25]];
    let falling_facts = facts_of(&falling);
    let issue = run(vec![vec![0, 1], vec![1, 0]], &falling, &falling_facts, 2, 2);
    assert_eq!(issue, PrecomputedKnnIssue::Decreasing { row: 1, col: 1 });
    assert_eq!(
        invalid_message(precomputed_knn_error(issue, &format!("{}", 0.25f32), &format!("{}", 0.5f32))),
        "precomputed knn distances must be non-decreasing within each row; row 1 has dist[1]=0.25 < dist[0]=0.5"
    );
    assert_eq!(
        invalid_message(precomputed_knn_error(PrecomputedKnnIssue::DuplicateIndex { row: 1, idx: 1 }, "", "")),
        "precomputed knn row 1 contains duplicate index 1"
    );
    assert_eq!(
        invalid_message(precomputed_knn_error(PrecomputedKnnIssue::RowCount, "", "")),
        "precomputed knn row count must match number of samples"
    );
}

#[test]
fn flat_distance_values_are_checked_in_order() {
    assert!(validate_precomputed_distance_values_flat(&[DistValue::Usable, DistValue::Usable]).is_ok());
    assert_eq!(
        invalid_message(
            validate_precomputed_distance_values_flat(&[DistValue::Usable, DistValue::Negative, DistValue::NonFinite])
                .unwrap_err()
        ),
        "knn_dists must be non-negative"
    );
    assert_eq!(
        invalid_message(validate_precomputed_distance_values_flat(&[DistValue::NonFinite]).unwrap_err()),
        "knn_dists must contain only finite values"
    );
}

#[test]
fn self_neighbour_detection() {
    let indices = vec![vec![0, 1], vec![1, 0]];
    let dists = vec![vec![0.0f32, 1.0], vec![0.0, 1.0]];
    let small: Vec<bool> = dists.iter().map(|r| !r.is_empty() && r[0].abs() <= SMOOTH_K_TOLERANCE).collect();
    assert!(knn_rows_include_self(&indices, &dists, &small));
    let shifted = vec![vec![1, 0], vec![1, 0]];
    assert!(!knn_rows_include_self(&shifted, &dists, &small));
    assert!(!knn_rows_include_self(&indices[..1], &dists, &small));
}

#[test]
fn query_rows_are_checked_row_by_row() {
    let query = vec![vec![1.0f32, 2.0], vec![3.0, 4.0, 5.0]];
    let finite = vec![true, true];
    assert_eq!(
        validate_transform_query(&query, 3, &finite).unwrap_err(),
        UmapError::FeatureMismatch { expected: 3, got: 2 }
    );
    assert_eq!(
        validate_transform_query(&query, 2, &finite).unwrap_err(),
        UmapError::InconsistentDimensions { row: 1, expected: 2, got: 3 }
    );
    assert_eq!(
        validate_inverse_query(&query, 3, &finite).unwrap_err(),
        UmapError::EmbeddingDimensionMismatch { expected: 3, got: 2 }
    );
    let query = vec![vec![1.0f32, 2.0], vec![f32::NAN, 4.0]];
    let finite: Vec<bool> = query.iter().map(|r| r.iter().all(|v| v.is_finite())).collect();
    assert_eq!(
        invalid_message(validate_transform_query(&query, 2, &finite).unwrap_err()),
        "input contains non-finite value at row 1"
    );
    assert!(validate_inverse_query(&query[..1], 2, &finite[..1]).is_ok());
}

#[test]
fn precomputed_knn_checks_every_column_not_only_the_kept_ones() {
    let dists = vec![vec![0.0f32, 1.0, 2.0], vec![0.0, 1.0, 2.0], vec![0.0, 1.0, 2.0]];
    let facts = facts_of(&dists);
    let indices = vec![vec![0, 1, 7], vec![1, 0, 2], vec![2, 0, 1]];
    assert_eq!(
        validate_and_trim_precomputed_knn(&indices, &dists, &facts, 3, 2).unwrap_err(),
        PrecomputedKnnIssue::IndexOutOfRange { row: 0, col: 2 }
    );
    let indices = vec![vec![0, 1, 0], vec![1, 0, 2], vec![2, 0, 1]];
    assert_eq!(
        validate_and_trim_precomputed_knn(&indices, &dists, &facts, 3, 2).unwrap_err(),
        PrecomputedKnnIssue::DuplicateIndex { row: 0, idx: 0 }
    );
    let late = vec![vec![0.0f32, 1.0, 0.5], vec![0.0, 1.0, 2.0], vec![0.0, 1.0, -2.0]];
    let indices = vec![vec![0, 1, 2], vec![1, 0, 2], vec![2, 0, 1]];
    assert_eq!(
        validate_and_trim_precomputed_knn(&indices, &late, &facts_of(&late), 3, 2).unwrap_err(),
        PrecomputedKnnIssue::Decreasing { row: 0, col: 2 }
    );
}

fn synthetic_data(n: usize, dim: usize) -> Vec<Vec<f32>> {
    let mut data = Vec::with_capacity(n);
    for i in 0..n {
        let cluster_shift = if i < n / 2 { 0.0 } else { 5.0 };
        let row = (0..dim)
            .map(|d| {
                let t = (i as f32 + 1.3 * d as f32) / n as f32;
                cluster_shift + (10.0 * t).sin() * 0.2 + (7.0 * t).cos() * 0.1
            })
            .collect::<Vec<f32>>();
        data.push(row);
    }
    data
}

fn order_key(d: f32) -> u32 {
    let bits = d.to_bits();
    if bits >> 31 == 1 { !bits } else { bits | 0x8000_0000 }
}

/// Exact Euclidean neighbours of every point, as rows of indices and distances.
fn exact_euclidean_knn(data: &[Vec<f32>], k: usize) -> (Vec<Vec<usize>>, Vec<Vec<f32>>) {
    let dist = |i: usize, j: usize| {
        data[i].iter().zip(&data[j]).map(|(a, b)| (a - b) * (a - b)).sum::<f32>().sqrt()
    };
    let (idx, _) = exact_nearest_neighbors_by(data.len(), k, |i, j| order_key(dist(i, j)));
    let dists = idx
        .iter()
        .enumerate()
        .map(|(i, row)| row.iter().map(|&j| dist(i, j)).collect())
        .collect();
    (idx, dists)
}

/// The precomputed-kNN checks of a fit: the metric, then the graph.
fn fit_with_knn_checks(knn_idx: &[Vec<usize>], knn_dist: &[Vec<f32>], n: usize, k: usize) -> Result<(), UmapError> {
    check_knn_metric(Metric::Euclidean, Metric::Euclidean, "Euclidean", "Euclidean")?;
    let facts = facts_of(knn_dist);
    validate_and_trim_precomputed_knn(knn_idx, knn_dist, &facts, n, k)
        .map(|_| ())
        .map_err(|issue| precomputed_knn_error(issue, "", ""))
}

#[test]
fn precomputed_knn_rejects_invalid_distances() {
    let data = synthetic_data(64, 6);
    let n_neighbors = 10;
    let (knn_idx, knn_dist) = exact_euclidean_knn(&data, n_neighbors);
    assert!(fit_with_knn_checks(&knn_idx, &knn_dist, data.len(), n_neighbors).is_ok());

    let mut knn_dist1 = knn_dist.clone();
    knn_dist1[0][1] = -0.5;
    let err = fit_with_knn_checks(&knn_idx, &knn_dist1, data.len(), n_neighbors)
        .expect_err("negative distance must be rejected");
    assert!(matches!(err, UmapError::InvalidParameter(_)));

    let mut knn_dist2 = knn_dist.clone();
    knn_dist2[0][2] = f32::NAN;
    let err = fit_with_knn_checks(&knn_idx, &knn_dist2, data.len(), n_neighbors)
        .expect_err("non-finite distance must be rejected");
    assert!(matches!(err, UmapError::InvalidParameter(_)));

    let mut knn_dist3 = knn_dist.clone();
    knn_dist3[0].swap(2, 5);
    let err = fit_with_knn_checks(&knn_idx, &knn_dist3, data.len(), n_neighbors)
        .expect_err("unsorted distances must be rejected");
    assert!(matches!(err, UmapError::InvalidParameter(_)));
}
