use rust_umap::params::{
    fit_epoch_count, should_use_approximate_knn, transform_epoch_count, validate_parametric_params,
    validate_params, ParametricParamFacts, UmapParamFacts,
};
use rust_umap::types::UmapError;

/// The parameter facts of a run with the given float settings.
fn facts(
    n_neighbors: usize,
    learning_rate: f32,
    min_dist: f32,
    spread: f32,
    set_op_mix_ratio: f32,
) -> UmapParamFacts {
    UmapParamFacts {
        n_neighbors,
        n_components: 2,
        negative_sample_rate: 5,
        approx_knn_candidates: 30,
        approx_knn_iters: 10,
        learning_rate_ok: learning_rate.is_finite() && learning_rate > 0.0,
        min_dist_ok: min_dist.is_finite() && min_dist >= 0.0,
        spread_ok: spread.is_finite() && spread > 0.0,
        min_dist_within_spread: !(min_dist > spread),
        mix_ratio_ok: set_op_mix_ratio.is_finite() && (0.0..=1.0).contains(&set_op_mix_ratio),
        repulsion_ok: true,
        local_connectivity_ok: true,
    }
}

fn message(r: Result<(), UmapError>) -> String {
    match r.unwrap_err() {
        UmapError::InvalidParameter(m) => m,
        other => panic!("unexpected error {:?}", other),
    }
}

#[test]
fn fit_rejects_non_finite_hyperparameters() {
    let p = facts(8, f32::INFINITY, 0.1, 1.0, 1.0);
    let m = message(validate_params(&p, 32));
    assert!(m.contains("learning_rate must be finite"), "unexpected error message: {m}");
}

#[test]
fn params_are_checked_in_order() {
    assert!(validate_params(&facts(15, 1.0, 0.1, 1.0, 1.0), 100).is_ok());
    assert_eq!(message(validate_params(&facts(1, f32::NAN, 0.1, 1.0, 1.0), 100)), "n_neighbors must be >= 2");
    assert_eq!(
        message(validate_params(&facts(15, 1.0, 0.1, 1.0, 1.0), 15)),
        "n_neighbors (15) must be smaller than number of samples (15)"
    );
    assert_eq!(message(validate_params(&facts(15, 1.0, 2.0, 1.0, 1.0), 100)), "min_dist must be <= spread");
    assert_eq!(
        message(validate_params(&facts(15, 1.0, 0.1, 1.0, 1.5), 100)),
        "set_op_mix_ratio must be finite and in [0, 1]"
    );
    let mut p = facts(15, 1.0, 0.1, 1.0, 1.0);
    p.n_components = 0;
    assert_eq!(message(validate_params(&p, 100)), "n_components must be >= 1");
    let mut p = facts(15, 1.0, 0.1, 1.0, 1.0);
    p.negative_sample_rate = 0;
    assert_eq!(message(validate_params(&p, 100)), "negative_sample_rate must be >= 1");
    let mut p = facts(15, 1.0, 0.1, 1.0, 1.0);
    p.approx_knn_iters = 0;
    assert_eq!(message(validate_params(&p, 100)), "approx_knn_iters must be >= 1");
}

fn parametric(pairwise: f32, learning_rate: f32, weight_decay: f32) -> ParametricParamFacts {
    ParametricParamFacts {
        hidden_dim: 64,
        train_epochs: 10,
        batch_size: 32,
        inference_batch_size: 256,
        learning_rate_ok: learning_rate.is_finite() && learning_rate > 0.0,
        pairwise_loss_weight_ok: pairwise.is_finite() && pairwise >= 0.0,
        weight_decay_ok: weight_decay.is_finite() && weight_decay >= 0.0,
    }
}

#[test]
fn parametric_rejects_invalid_pairwise_loss_weight() {
    let m = message(validate_parametric_params(&parametric(f32::NAN, 1e-3, 0.0)));
    assert!(m.contains("pairwise_loss_weight"));
}

#[test]
fn parametric_rejects_negative_pairwise_loss_weight() {
    let m = message(validate_parametric_params(&parametric(-0.5, 1e-3, 0.0)));
    assert!(m.contains("pairwise_loss_weight"));
}

#[test]
fn parametric_rejects_non_finite_learning_rate() {
    let m = message(validate_parametric_params(&parametric(0.0, f32::INFINITY, 0.0)));
    assert!(m.contains("learning_rate"));
}

#[test]
fn parametric_rejects_non_finite_weight_decay() {
    let m = message(validate_parametric_params(&parametric(0.0, 1e-3, f32::NAN)));
    assert!(m.contains("weight_decay"));
}

#[test]
fn parametric_integer_checks() {
    let mut p = parametric(0.0, 1e-3, 0.0);
    p.batch_size = 0;
    assert_eq!(message(validate_parametric_params(&p)), "batch_size must be >= 1");
    assert!(validate_parametric_params(&parametric(0.0, 1e-3, 0.0)).is_ok());
}

#[test]
fn approximate_search_choice() {
    assert!(!should_use_approximate_knn(false, 0, 10_000, 100));
    assert!(!should_use_approximate_knn(true, 4096, 4096, 100));
    assert!(should_use_approximate_knn(true, 4096, 4097, 100));
    assert!(!should_use_approximate_knn(true, 4096, 16_384, 16));
    assert!(should_use_approximate_knn(true, 4096, 16_385, 16));
    assert!(should_use_approximate_knn(true, 0, 5, 3));
    assert!(!should_use_approximate_knn(true, usize::MAX / 2, usize::MAX / 2 + 1, 3));
}

#[test]
fn epoch_defaults() {
    assert_eq!(fit_epoch_count(Some(33), 5), 33);
    assert_eq!(fit_epoch_count(None, 10_000), 500);
    assert_eq!(fit_epoch_count(None, 10_001), 200);
    assert_eq!(transform_epoch_count(Some(200), 5), 66);
    assert_eq!(transform_epoch_count(Some(2), 5), 1);
    assert_eq!(transform_epoch_count(None, 10_000), 100);
    assert_eq!(transform_epoch_count(None, 10_001), 30);
}
