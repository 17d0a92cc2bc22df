use rust_umap::rows::{dense_matrix_from_output_rows, validate_data, validate_dense_data, validate_query_dimensions};
use rust_umap::types::UmapError;

fn synthetic_data(n: usize, dim: usize) -> Vec<Vec<f32>> {
    (0..n)
        .map(|i| (0..dim).map(|d| ((i * 7 + d * 3) % 11) as f32 * 0.1).collect())
        .collect()
}

fn finite_rows(data: &[Vec<f32>]) -> Vec<bool> {
    data.iter().map(|r| r.iter().all(|v| v.is_finite())).collect()
}

#[test]
fn fit_rejects_non_finite_input_values() {
    let mut data = synthetic_data(32, 6);
    data[7][3] = f32::NAN;
    let err = validate_data(data.len(), data[0].len(), &finite_rows(&data)).unwrap_err();
    assert!(matches!(err, UmapError::InvalidParameter(_)));
    assert!(err.message().contains("non-finite"), "unexpected error message: {}", err.message());
    assert_eq!(err.message(), "invalid parameter: input contains non-finite value at row 7");
}

#[test]
fn data_shape_checks() {
    assert_eq!(validate_data(0, 3, &[]).unwrap_err(), UmapError::EmptyData);
    assert_eq!(validate_data(1, 3, &[true]).unwrap_err(), UmapError::NeedAtLeastTwoSamples);
    assert_eq!(
        validate_data(2, 0, &[true, true]).unwrap_err().message(),
        "invalid parameter: input rows must have at least one feature"
    );
    assert_eq!(validate_data(2, 3, &[true, true]).unwrap(), (2, 3));
}

#[test]
fn dense_data_rows_must_agree() {
    let mut data = synthetic_data(4, 3);
    assert_eq!(validate_dense_data(&data).unwrap(), (4, 3));
    data[2].pop();
    assert_eq!(
        validate_dense_data(&data).unwrap_err(),
        UmapError::InconsistentDimensions { row: 2, expected: 3, got: 2 }
    );
    assert_eq!(validate_dense_data::<f32>(&[]).unwrap_err(), UmapError::EmptyData);
}

#[test]
fn query_width_is_checked() {
    let query = vec![vec![1.0f32; 3], vec![1.0; 4]];
    assert_eq!(
        validate_query_dimensions(&query, 4).unwrap_err(),
        UmapError::FeatureMismatch { expected: 4, got: 3 }
    );
    assert_eq!(
        validate_query_dimensions(&query, 3).unwrap_err(),
        UmapError::InconsistentDimensions { row: 1, expected: 3, got: 4 }
    );
    assert!(validate_query_dimensions(&query[..1], 3).is_ok());
}

#[test]
fn output_rows_are_flattened() {
    let rows = vec![vec![1.0f32, 2.0], vec![3.0, 4.0]];
    let (data, n_rows, n_cols) = dense_matrix_from_output_rows(&rows, 7).unwrap();
    assert_eq!(data, vec![1.0, 2.0, 3.0, 4.0]);
    assert_eq!((n_rows, n_cols), (2, 2));
    let (data, n_rows, n_cols) = dense_matrix_from_output_rows::<f32>(&[], 7).unwrap();
    assert!(data.is_empty());
    assert_eq!((n_rows, n_cols), (0, 7));
    let ragged = vec![vec![1.0f32, 2.0], vec![3.0]];
    assert_eq!(
        dense_matrix_from_output_rows(&ragged, 2).unwrap_err(),
        UmapError::InconsistentDimensions { row: 1, expected: 2, got: 1 }
    );
}

#[test]
fn umap_error_messages() {
    assert_eq!(UmapError::EmptyData.message(), "input data is empty");
    assert_eq!(
        UmapError::InconsistentDimensions { row: 3, expected: 5, got: 4 }.message(),
        "inconsistent row dimension at row 3: expected 5, got 4"
    );
    assert_eq!(
        UmapError::EmbeddingDimensionMismatch { expected: 2, got: 3 }.message(),
        "embedding dimension mismatch: expected 2, got 3"
    );
    assert_eq!(UmapError::NotFitted.message(), "model is not fitted yet");
    assert_eq!(
        UmapError::InvalidParameter("bad".to_string()).message(),
        "invalid parameter: bad"
    );
}
