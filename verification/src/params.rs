//! Parameter checks and the integer decisions that follow from the
//! parameters: which neighbour search runs and how many epochs the layout
//! optimisation takes. The floating-point parameters are tested by the
//! caller; their outcomes arrive here as flags.
use vstd::prelude::*;
use crate::knn::invalid_with;
use crate::text::{decimal, push_decimal, string_append, string_of};
use crate::types::{AnnMode, UmapError};

verus! {

/// The integer parameters of a UMAP run and the outcome of the tests on
/// its floating-point parameters.
#[derive(Debug, Clone, Copy)]
pub struct UmapParamFacts {
    pub n_neighbors: usize,
    pub n_components: usize,
    pub negative_sample_rate: usize,
    pub approx_knn_candidates: usize,
    pub approx_knn_iters: usize,
    /// `learning_rate` is finite and `> 0`.
    pub learning_rate_ok: bool,
    /// `min_dist` is finite and `>= 0`.
    pub min_dist_ok: bool,
    /// `spread` is finite and `> 0`.
    pub spread_ok: bool,
    /// `min_dist <= spread` (not `min_dist > spread`).
    pub min_dist_within_spread: bool,
    /// `set_op_mix_ratio` is finite and in `[0, 1]`.
    pub mix_ratio_ok: bool,
    /// `repulsion_strength` is finite and `>= 0`.
    pub repulsion_ok: bool,
    /// `local_connectivity` is finite and `>= 0`.
    pub local_connectivity_ok: bool,
}

/// The first failed check of `validate_params`, as its message, or `None`.
pub open spec fn params_failure(p: UmapParamFacts, n_samples: usize) -> Option<Seq<char>> {
    if p.n_neighbors < 2 {
        Some("n_neighbors must be >= 2"@)
    } else if p.n_neighbors >= n_samples {
        Some(
            "n_neighbors ("@ + decimal(p.n_neighbors as nat) + ") must be smaller than number of samples ("@
                + decimal(n_samples as nat) + ")"@,
        )
    } else if p.n_components == 0 {
        Some("n_components must be >= 1"@)
    } else if !p.learning_rate_ok {
        Some("learning_rate must be finite and > 0"@)
    } else if !p.min_dist_ok {
        Some("min_dist must be finite and >= 0"@)
    } else if !p.spread_ok {
        Some("spread must be finite and > 0"@)
    } else if !p.min_dist_within_spread {
        Some("min_dist must be <= spread"@)
    } else if !p.mix_ratio_ok {
        Some("set_op_mix_ratio must be finite and in [0, 1]"@)
    } else if !p.repulsion_ok {
        Some("repulsion_strength must be finite and >= 0"@)
    } else if p.negative_sample_rate == 0 {
        Some("negative_sample_rate must be >= 1"@)
    } else if !p.local_connectivity_ok {
        Some("local_connectivity must be finite and >= 0"@)
    } else if p.approx_knn_candidates == 0 {
        Some("approx_knn_candidates must be >= 1"@)
    } else if p.approx_knn_iters == 0 {
        Some("approx_knn_iters must be >= 1"@)
    } else {
        None
    }
}

fn invalid(msg: &str) -> (r: Result<(), UmapError>)
    ensures
        r matches Err(e) && invalid_with(e, msg@),
{
    Err(UmapError::InvalidParameter(string_of(msg)))
}

/// Checks the UMAP parameters for a data set of `n_samples` points, in a
/// fixed order, and reports the first that fails.
pub fn validate_params(p: &UmapParamFacts, n_samples: usize) -> (r: Result<(), UmapError>)
    ensures
        params_failure(*p, n_samples) is None ==> r is Ok,
        params_failure(*p, n_samples) matches Some(msg) ==> (r matches Err(e) && invalid_with(e, msg)),
{
    if p.n_neighbors < 2 {
        return invalid("n_neighbors must be >= 2");
    }
    if p.n_neighbors >= n_samples {
        let mut m = string_of("n_neighbors (");
        push_decimal(&mut m, p.n_neighbors);
        string_append(&mut m, ") must be smaller than number of samples (");
        push_decimal(&mut m, n_samples);
        string_append(&mut m, ")");
        return Err(UmapError::InvalidParameter(m));
    }
    if p.n_components == 0 {
        return invalid("n_components must be >= 1");
    }
    if !p.learning_rate_ok {
        return invalid("learning_rate must be finite and > 0");
    }
    if !p.min_dist_ok {
        return invalid("min_dist must be finite and >= 0");
    }
    if !p.spread_ok {
        return invalid("spread must be finite and > 0");
    }
    if !p.min_dist_within_spread {
        return invalid("min_dist must be <= spread");
    }
    if !p.mix_ratio_ok {
        return invalid("set_op_mix_ratio must be finite and in [0, 1]");
    }
    if !p.repulsion_ok {
        return invalid("repulsion_strength must be finite and >= 0");
    }
    if p.negative_sample_rate == 0 {
        return invalid("negative_sample_rate must be >= 1");
    }
    if !p.local_connectivity_ok {
        return invalid("local_connectivity must be finite and >= 0");
    }
    if p.approx_knn_candidates == 0 {
        return invalid("approx_knn_candidates must be >= 1");
    }
    if p.approx_knn_iters == 0 {
        return invalid("approx_knn_iters must be >= 1");
    }
    Ok(())
}

/// Up to this many features a data set counts as low-dimensional.
pub const LOW_DIM_MAX_FEATURES: usize = 16;

/// A low-dimensional data set stays on the exact search up to this many
/// times the approximate-search threshold.
pub const LOW_DIM_SAMPLE_MULTIPLIER: usize = 4;

/// The approximate search is enabled, the data is larger than the
/// threshold, and a low-dimensional data set with a positive threshold is
/// larger than `LOW_DIM_SAMPLE_MULTIPLIER` times it (saturating).
pub open spec fn uses_approximate_knn(
    use_approximate_knn: bool,
    approx_knn_threshold: usize,
    n_samples: usize,
    n_features: usize,
) -> bool {
    use_approximate_knn && n_samples > approx_knn_threshold && !(approx_knn_threshold > 0
        && n_features <= LOW_DIM_MAX_FEATURES && n_samples <= (if approx_knn_threshold
        * LOW_DIM_SAMPLE_MULTIPLIER > usize::MAX {
        usize::MAX as int
    } else {
        approx_knn_threshold * LOW_DIM_SAMPLE_MULTIPLIER
    }))
}

/// Whether the approximate search is used: it must be enabled and the data
/// larger than the threshold; a low-dimensional data set (at most
/// `LOW_DIM_MAX_FEATURES` features) with a positive threshold also needs
/// more than `LOW_DIM_SAMPLE_MULTIPLIER` times the threshold (saturating).
pub fn should_use_approximate_knn(
    use_approximate_knn: bool,
    approx_knn_threshold: usize,
    n_samples: usize,
    n_features: usize,
) -> (b: bool)
    ensures
        b == uses_approximate_knn(use_approximate_knn, approx_knn_threshold, n_samples, n_features),
{
    if !use_approximate_knn || n_samples <= approx_knn_threshold {
        return false;
    }
    let scaled = match approx_knn_threshold.checked_mul(LOW_DIM_SAMPLE_MULTIPLIER) {
        Some(v) => v,
        None => usize::MAX,
    };
    if approx_knn_threshold > 0 && n_features <= LOW_DIM_MAX_FEATURES && n_samples <= scaled {
        return false;
    }
    true
}

/// Epochs of the layout optimisation of a fit: the configured count, else
/// 500 for up to 10 000 samples and 200 beyond.
pub fn fit_epoch_count(n_epochs: Option<usize>, n_samples: usize) -> (e: usize)
    ensures
        e == match n_epochs {
            Some(v) => v,
            None => if n_samples <= 10_000 { 500usize } else { 200usize },
        },
{
    match n_epochs {
        Some(v) => v,
        None => if n_samples <= 10_000 {
            500
        } else {
            200
        },
    }
}

/// Epochs of the optimisation that places new points (transform and
/// inverse transform): a third of the configured count, at least one; else
/// 100 for up to 10 000 query rows and 30 beyond.
pub fn transform_epoch_count(n_epochs: Option<usize>, n_query: usize) -> (e: usize)
    ensures
        e == match n_epochs {
            Some(v) => if v / 3 > 1 { v / 3 } else { 1 },
            None => if n_query <= 10_000 { 100usize } else { 30usize },
        },
{
    match n_epochs {
        Some(v) => {
            let third = v / 3;
            if third > 1 {
                third
            } else {
                1
            }
        },
        None => if n_query <= 10_000 {
            100
        } else {
            30
        },
    }
}

/// The settings `(use_approximate_knn, approx_knn_threshold)` after the
/// mode `mode`: `Auto` keeps them, `Exact` turns the approximate search
/// off, `Approximate` turns it on for any size.
pub open spec fn ann_mode_settings(mode: AnnMode, use_approximate_knn: bool, approx_knn_threshold: usize) -> (
    bool,
    usize,
) {
    match mode {
        AnnMode::Auto => (use_approximate_knn, approx_knn_threshold),
        AnnMode::Exact => (false, approx_knn_threshold),
        AnnMode::Approximate => (true, 0),
    }
}

impl AnnMode {
    /// The neighbour-search settings `(use_approximate_knn,
    /// approx_knn_threshold)` after this mode: `Auto` keeps them, `Exact`
    /// turns the approximate search off, `Approximate` turns it on for any
    /// size.
    pub fn apply_to(self, use_approximate_knn: &mut bool, approx_knn_threshold: &mut usize)
        ensures
            (*final(use_approximate_knn), *final(approx_knn_threshold)) == ann_mode_settings(
                self,
                *old(use_approximate_knn),
                *old(approx_knn_threshold),
            ),
    {
        match self {
            AnnMode::Auto => {},
            AnnMode::Exact => {
                *use_approximate_knn = false;
            },
            AnnMode::Approximate => {
                *use_approximate_knn = true;
                *approx_knn_threshold = 0;
            },
        }
    }
}

/// The integer parameters of a parametric UMAP run and the outcome of the
/// tests on its floating-point parameters.
#[derive(Debug, Clone, Copy)]
pub struct ParametricParamFacts {
    pub hidden_dim: usize,
    pub train_epochs: usize,
    pub batch_size: usize,
    pub inference_batch_size: usize,
    /// `learning_rate` is finite and `> 0`.
    pub learning_rate_ok: bool,
    /// `pairwise_loss_weight` is finite and `>= 0`.
    pub pairwise_loss_weight_ok: bool,
    /// `weight_decay` is finite and `>= 0`.
    pub weight_decay_ok: bool,
}

/// The first failed check of `validate_parametric_params`, as its message.
pub open spec fn parametric_failure(p: ParametricParamFacts) -> Option<Seq<char>> {
    if p.hidden_dim == 0 {
        Some("hidden_dim must be >= 1"@)
    } else if p.train_epochs == 0 {
        Some("train_epochs must be >= 1"@)
    } else if p.batch_size == 0 {
        Some("batch_size must be >= 1"@)
    } else if p.inference_batch_size == 0 {
        Some("inference_batch_size must be >= 1"@)
    } else if !p.learning_rate_ok {
        Some("learning_rate must be finite and > 0"@)
    } else if !p.pairwise_loss_weight_ok {
        Some("pairwise_loss_weight must be finite and >= 0"@)
    } else if !p.weight_decay_ok {
        Some("weight_decay must be finite and >= 0"@)
    } else {
        None
    }
}

/// Checks the parametric UMAP parameters in a fixed order and reports the
/// first that fails.
pub fn validate_parametric_params(p: &ParametricParamFacts) -> (r: Result<(), UmapError>)
    ensures
        parametric_failure(*p) is None ==> r is Ok,
        parametric_failure(*p) matches Some(msg) ==> (r matches Err(e) && invalid_with(e, msg)),
{
    if p.hidden_dim == 0 {
        return invalid("hidden_dim must be >= 1");
    }
    if p.train_epochs == 0 {
        return invalid("train_epochs must be >= 1");
    }
    if p.batch_size == 0 {
        return invalid("batch_size must be >= 1");
    }
    if p.inference_batch_size == 0 {
        return invalid("inference_batch_size must be >= 1");
    }
    if !p.learning_rate_ok {
        return invalid("learning_rate must be finite and > 0");
    }
    if !p.pairwise_loss_weight_ok {
        return invalid("pairwise_loss_weight must be finite and >= 0");
    }
    if !p.weight_decay_ok {
        return invalid("weight_decay must be finite and >= 0");
    }
    Ok(())
}

/// The nearest-neighbour mode decides the search: after `Exact` the search
/// is exact, after `Approximate` it is approximate for any non-empty data,
/// and `Auto` leaves the choice to the configured settings.
pub proof fn law_ann_mode_decides_search(
    mode: AnnMode,
    use_approximate_knn: bool,
    approx_knn_threshold: usize,
    n_samples: usize,
    n_features: usize,
)
    requires
        n_samples > 0,
    ensures
        ({
            let (u, t) = ann_mode_settings(mode, use_approximate_knn, approx_knn_threshold);
            &&& mode == AnnMode::Exact ==> !uses_approximate_knn(u, t, n_samples, n_features)
            &&& mode == AnnMode::Approximate ==> uses_approximate_knn(u, t, n_samples, n_features)
            &&& mode == AnnMode::Auto ==> uses_approximate_knn(u, t, n_samples, n_features)
                == uses_approximate_knn(
                use_approximate_knn,
                approx_knn_threshold,
                n_samples,
                n_features,
            )
        }),
{
}

/// Validation accepts every parameter set with `2 <= n_neighbors <
/// n_samples` whose other parameters are valid, and refuses every one with
/// `n_neighbors >= n_samples` or `n_neighbors < 2`.
pub proof fn law_validation_accepts_valid_params(p: UmapParamFacts, n_samples: usize)
    ensures
        (2 <= p.n_neighbors < n_samples && p.n_components >= 1 && p.learning_rate_ok && p.min_dist_ok
            && p.spread_ok && p.min_dist_within_spread && p.mix_ratio_ok && p.repulsion_ok
            && p.negative_sample_rate >= 1 && p.local_connectivity_ok && p.approx_knn_candidates >= 1
            && p.approx_knn_iters >= 1) ==> params_failure(p, n_samples) is None,
        p.n_neighbors >= n_samples ==> params_failure(p, n_samples) is Some,
        p.n_neighbors < 2 ==> params_failure(p, n_samples) is Some,
{
}

} // verus!
