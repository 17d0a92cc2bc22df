use rust_umap::model::{check_knn_metric, inverse_transform_readiness, transform_readiness, FitState};
use rust_umap::types::{Metric, UmapError};

fn state(dense: bool, sparse: bool) -> FitState {
    FitState {
        has_embedding: true,
        n_features: Some(4),
        dense_training: dense,
        sparse_training: sparse,
        has_sigmas: true,
        has_rhos: true,
    }
}

#[test]
fn transform_needs_a_fitted_model() {
    assert_eq!(transform_readiness(&state(true, false)), Ok(4));
    assert_eq!(transform_readiness(&state(false, true)), Ok(4));
    assert_eq!(transform_readiness(&state(false, false)), Err(UmapError::NotFitted));
    let mut s = state(true, false);
    s.n_features = None;
    assert_eq!(transform_readiness(&s), Err(UmapError::NotFitted));
    let mut s = state(true, false);
    s.has_embedding = false;
    assert_eq!(transform_readiness(&s), Err(UmapError::NotFitted));
}

#[test]
fn inverse_transform_needs_dense_training_data() {
    assert_eq!(inverse_transform_readiness(&state(true, false)), Ok(()));
    assert_eq!(
        inverse_transform_readiness(&state(false, true)),
        Err(UmapError::InvalidParameter(
            "inverse_transform is not supported for sparse-trained models yet".to_string()
        ))
    );
    assert_eq!(inverse_transform_readiness(&state(false, false)), Err(UmapError::NotFitted));
    let mut s = state(true, false);
    s.has_rhos = false;
    assert_eq!(inverse_transform_readiness(&s), Err(UmapError::NotFitted));
}

#[test]
fn precomputed_knn_metric_must_match_the_model() {
    assert_eq!(check_knn_metric(Metric::Cosine, Metric::Cosine, "Cosine", "Cosine"), Ok(()));
    assert_eq!(
        check_knn_metric(Metric::Cosine, Metric::Euclidean, "Cosine", "Euclidean"),
        Err(UmapError::InvalidParameter(
            "precomputed knn metric (Cosine) must match model metric (Euclidean)".to_string()
        ))
    );
    let p3 = Metric::Minkowski { p_bits: 3.0f32.to_bits() };
    let p2 = Metric::Minkowski { p_bits: 2.0f32.to_bits() };
    assert_eq!(check_knn_metric(p3, p3, "", ""), Ok(()));
    assert!(check_knn_metric(p3, p2, "a", "b").is_err());
}
