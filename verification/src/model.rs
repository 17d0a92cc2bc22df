//! The guards of a UMAP model's operations: whether a fitted model can
//! transform or invert, and whether a precomputed kNN graph was built with
//! the model's metric.
use vstd::prelude::*;
use crate::knn::invalid_with;
use crate::text::{string_append, string_of};
use crate::types::{Metric, UmapError};

verus! {

/// What a model holds after fitting (or not).
#[derive(Debug, Clone, Copy)]
pub struct FitState {
    /// The training embedding is stored.
    pub has_embedding: bool,
    /// Number of features of the training data, once known.
    pub n_features: Option<usize>,
    /// The dense training data is stored.
    pub dense_training: bool,
    /// The sparse (CSR) training data is stored.
    pub sparse_training: bool,
    /// The per-point bandwidths of the fit are stored.
    pub has_sigmas: bool,
    /// The per-point distances to the nearest neighbour are stored.
    pub has_rhos: bool,
}

/// `transform` can run on a model in `state`: it returns the number of
/// features a query row must have, or `NotFitted` when the embedding, the
/// feature count or every kind of training data is missing.
pub fn transform_readiness(state: &FitState) -> (r: Result<usize, UmapError>)
    ensures
        (state.has_embedding && state.n_features is Some && (state.dense_training
            || state.sparse_training)) ==> r == Ok::<usize, UmapError>(state.n_features->0),
        !(state.has_embedding && state.n_features is Some && (state.dense_training
            || state.sparse_training)) ==> r matches Err(UmapError::NotFitted),
{
    if !state.has_embedding {
        return Err(UmapError::NotFitted);
    }
    let n_features = match state.n_features {
        Some(f) => f,
        None => {
            return Err(UmapError::NotFitted);
        },
    };
    if !state.dense_training && !state.sparse_training {
        return Err(UmapError::NotFitted);
    }
    Ok(n_features)
}

/// The error text of an inverse transform on a model trained on sparse data.
pub open spec fn sparse_inverse_text() -> Seq<char> {
    "inverse_transform is not supported for sparse-trained models yet"@
}

/// `inverse_transform` can run on a model in `state`. Without dense
/// training data it is refused: as unsupported when the model was trained
/// on sparse data, as `NotFitted` otherwise; then `NotFitted` when the
/// embedding, the bandwidths, the nearest distances or the feature count
/// is missing.
pub fn inverse_transform_readiness(state: &FitState) -> (r: Result<(), UmapError>)
    ensures
        !state.dense_training && state.sparse_training ==> (r matches Err(e) && invalid_with(
            e,
            sparse_inverse_text(),
        )),
        !state.dense_training && !state.sparse_training ==> r matches Err(UmapError::NotFitted),
        state.dense_training ==> (if state.has_embedding && state.has_sigmas && state.has_rhos
            && state.n_features is Some {
            r is Ok
        } else {
            r matches Err(UmapError::NotFitted)
        }),
{
    if !state.dense_training {
        if state.sparse_training {
            return Err(
                UmapError::InvalidParameter(
                    string_of("inverse_transform is not supported for sparse-trained models yet"),
                ),
            );
        }
        return Err(UmapError::NotFitted);
    }
    if !state.has_embedding || !state.has_sigmas || !state.has_rhos || state.n_features.is_none() {
        return Err(UmapError::NotFitted);
    }
    Ok(())
}

/// The message for a precomputed kNN graph built with another metric;
/// `knn_text` and `model_text` are the printed forms of the two metrics.
pub open spec fn metric_mismatch_text(knn_text: Seq<char>, model_text: Seq<char>) -> Seq<char> {
    "precomputed knn metric ("@ + knn_text + ") must match model metric ("@ + model_text + ")"@
}

/// A precomputed kNN graph must have been built with the model's metric.
pub fn check_knn_metric(knn_metric: Metric, model_metric: Metric, knn_text: &str, model_text: &str) -> (r:
    Result<(), UmapError>)
    ensures
        knn_metric == model_metric ==> r is Ok,
        knn_metric != model_metric ==> (r matches Err(e) && invalid_with(
            e,
            metric_mismatch_text(knn_text@, model_text@),
        )),
{
    if knn_metric == model_metric {
        return Ok(());
    }
    let mut m = string_of("precomputed knn metric (");
    string_append(&mut m, knn_text);
    string_append(&mut m, ") must match model metric (");
    string_append(&mut m, model_text);
    string_append(&mut m, ")");
    Err(UmapError::InvalidParameter(m))
}

} // verus!
