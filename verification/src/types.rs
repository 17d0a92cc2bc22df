//! Enumerations and error types shared by the whole library.
use vstd::prelude::*;

verus! {

/// How the low-dimensional embedding is initialised.
#[derive(Debug, Clone, Copy, PartialEq, Eq, Structural)]
pub enum InitMethod {
    Random,
    Spectral,
}

/// The spectral initialisation is the default one.
pub fn default_init_method() -> (m: InitMethod)
    ensures
        m == InitMethod::Spectral,
{
    InitMethod::Spectral
}

/// The distance used between input points.
#[derive(Debug, Clone, Copy, PartialEq, Eq, Structural)]
pub enum Metric {
    Euclidean,
    Manhattan,
    Cosine,
    Chebyshev,
    Correlation,
    Canberra,
    BrayCurtis,
    /// The Minkowski distance of order `p`, where `p_bits` holds the bits
    /// of `p` as an `f32` (`f32::to_bits`).
    Minkowski { p_bits: u32 },
}

/// Euclidean distance is the default metric.
pub fn default_metric() -> (m: Metric)
    ensures
        m == Metric::Euclidean,
{
    Metric::Euclidean
}

/// Which nearest-neighbour search a command-line run asks for.
#[derive(Debug, Clone, Copy, PartialEq, Eq, Structural)]
pub enum AnnMode {
    Auto,
    Exact,
    Approximate,
}

/// `Auto` is the default mode.
pub fn default_ann_mode() -> (m: AnnMode)
    ensures
        m == AnnMode::Auto,
{
    AnnMode::Auto
}

/// Training schedule of the parametric model.
#[derive(Debug, Clone, Copy, PartialEq, Eq, Structural)]
pub enum ParametricTrainMode {
    Naive,
    Optimized,
}

/// The optimized (mini-batch) schedule is the default.
pub fn default_train_mode() -> (m: ParametricTrainMode)
    ensures
        m == ParametricTrainMode::Optimized,
{
    ParametricTrainMode::Optimized
}

/// Errors reported by the UMAP model and its input checks.
#[derive(Debug, Clone, PartialEq, Eq)]
pub enum UmapError {
    EmptyData,
    NeedAtLeastTwoSamples,
    InconsistentDimensions { row: usize, expected: usize, got: usize },
    FeatureMismatch { expected: usize, got: usize },
    EmbeddingDimensionMismatch { expected: usize, got: usize },
    NotFitted,
    InvalidParameter(String),
}

/// Errors reported by aligned UMAP.
#[derive(Debug, Clone, PartialEq, Eq)]
pub enum AlignedUmapError {
    EmptyDatasets,
    NeedAtLeastTwoDatasets,
    EmptySlice { slice: usize },
    FeatureMismatch { slice: usize, expected: usize, got: usize },
    RelationCountMismatch { expected: usize, got: usize },
    RelationIndexOutOfRange {
        relation: usize,
        left_idx: usize,
        right_idx: usize,
        left_len: usize,
        right_len: usize,
    },
    DatasetSampleMismatch {
        left_slice: usize,
        right_slice: usize,
        left_samples: usize,
        right_samples: usize,
    },
    InvalidParameter(String),
    Umap(UmapError),
}

} // verus!
