//! The messages of the library's errors, and the conversion of a UMAP error
//! into an aligned-UMAP error.
use vstd::prelude::*;
use crate::text::{decimal, push_decimal, string_append, string_of};
use crate::types::{AlignedUmapError, UmapError};

verus! {

/// `{prefix}{expected}, got {got}`.
pub open spec fn expected_got(prefix: Seq<char>, expected: usize, got: usize) -> Seq<char> {
    prefix + decimal(expected as nat) + ", got "@ + decimal(got as nat)
}

/// The message of a UMAP error.
pub open spec fn umap_error_text(e: UmapError) -> Seq<char> {
    match e {
        UmapError::EmptyData => "input data is empty"@,
        UmapError::NeedAtLeastTwoSamples => "need at least two samples"@,
        UmapError::InconsistentDimensions { row, expected, got } => expected_got(
            "inconsistent row dimension at row "@ + decimal(row as nat) + ": expected "@,
            expected,
            got,
        ),
        UmapError::FeatureMismatch { expected, got } => expected_got(
            "feature mismatch: expected "@,
            expected,
            got,
        ),
        UmapError::EmbeddingDimensionMismatch { expected, got } => expected_got(
            "embedding dimension mismatch: expected "@,
            expected,
            got,
        ),
        UmapError::NotFitted => "model is not fitted yet"@,
        UmapError::InvalidParameter(msg) => "invalid parameter: "@ + msg@,
    }
}

/// The message of an aligned-UMAP error.
pub open spec fn aligned_error_text(e: AlignedUmapError) -> Seq<char> {
    match e {
        AlignedUmapError::EmptyDatasets => "input datasets are empty"@,
        AlignedUmapError::NeedAtLeastTwoDatasets => "need at least two slices for aligned UMAP"@,
        AlignedUmapError::EmptySlice { slice } => "slice "@ + decimal(slice as nat) + " is empty"@,
        AlignedUmapError::FeatureMismatch { slice, expected, got } => expected_got(
            "slice "@ + decimal(slice as nat) + " feature mismatch: expected "@,
            expected,
            got,
        ),
        AlignedUmapError::RelationCountMismatch { expected, got } => "relation count mismatch: expected "@
            + decimal(expected as nat) + " relations for adjacent slices, got "@ + decimal(
            got as nat,
        ),
        AlignedUmapError::RelationIndexOutOfRange {
            relation,
            left_idx,
            right_idx,
            left_len,
            right_len,
        } => "relation "@ + decimal(relation as nat) + " pair ("@ + decimal(left_idx as nat) + ", "@
            + decimal(right_idx as nat) + ") out of range (left_len="@ + decimal(left_len as nat)
            + ", right_len="@ + decimal(right_len as nat) + ")"@,
        AlignedUmapError::DatasetSampleMismatch {
            left_slice,
            right_slice,
            left_samples,
            right_samples,
        } => "identity alignment requires equal sample counts; slices "@ + decimal(
            left_slice as nat,
        ) + " and "@ + decimal(right_slice as nat) + " have "@ + decimal(left_samples as nat)
            + " and "@ + decimal(right_samples as nat) + " samples"@,
        AlignedUmapError::InvalidParameter(msg) => "invalid parameter: "@ + msg@,
        AlignedUmapError::Umap(err) => "underlying umap error: "@ + umap_error_text(err),
    }
}

/// Appends `{expected}, got {got}` to `m`.
fn push_expected_got(m: &mut String, expected: usize, got: usize)
    ensures
        final(m)@ == old(m)@ + decimal(expected as nat) + ", got "@ + decimal(got as nat),
{
    push_decimal(m, expected);
    string_append(m, ", got ");
    push_decimal(m, got);
}

impl UmapError {
    /// The human-readable message of this error.
    pub fn message(&self) -> (m: String)
        ensures
            m@ == umap_error_text(*self),
    {
        match self {
            UmapError::EmptyData => string_of("input data is empty"),
            UmapError::NeedAtLeastTwoSamples => string_of("need at least two samples"),
            UmapError::InconsistentDimensions { row, expected, got } => {
                let mut m = string_of("inconsistent row dimension at row ");
                push_decimal(&mut m, *row);
                string_append(&mut m, ": expected ");
                push_expected_got(&mut m, *expected, *got);
                m
            },
            UmapError::FeatureMismatch { expected, got } => {
                let mut m = string_of("feature mismatch: expected ");
                push_expected_got(&mut m, *expected, *got);
                m
            },
            UmapError::EmbeddingDimensionMismatch { expected, got } => {
                let mut m = string_of("embedding dimension mismatch: expected ");
                push_expected_got(&mut m, *expected, *got);
                m
            },
            UmapError::NotFitted => string_of("model is not fitted yet"),
            UmapError::InvalidParameter(msg) => {
                let mut m = string_of("invalid parameter: ");
                string_append(&mut m, msg.as_str());
                m
            },
        }
    }
}

impl AlignedUmapError {
    /// The human-readable message of this error.
    pub fn message(&self) -> (m: String)
        ensures
            m@ == aligned_error_text(*self),
    {
        match self {
            AlignedUmapError::EmptyDatasets => string_of("input datasets are empty"),
            AlignedUmapError::NeedAtLeastTwoDatasets => string_of(
                "need at least two slices for aligned UMAP",
            ),
            AlignedUmapError::EmptySlice { slice } => {
                let mut m = string_of("slice ");
                push_decimal(&mut m, *slice);
                string_append(&mut m, " is empty");
                m
            },
            AlignedUmapError::FeatureMismatch { slice, expected, got } => {
                let mut m = string_of("slice ");
                push_decimal(&mut m, *slice);
                string_append(&mut m, " feature mismatch: expected ");
                push_expected_got(&mut m, *expected, *got);
                m
            },
            AlignedUmapError::RelationCountMismatch { expected, got } => {
                let mut m = string_of("relation count mismatch: expected ");
                push_decimal(&mut m, *expected);
                string_append(&mut m, " relations for adjacent slices, got ");
                push_decimal(&mut m, *got);
                m
            },
            AlignedUmapError::RelationIndexOutOfRange {
                relation,
                left_idx,
                right_idx,
                left_len,
                right_len,
            } => {
                let mut m = string_of("relation ");
                push_decimal(&mut m, *relation);
                string_append(&mut m, " pair (");
                push_decimal(&mut m, *left_idx);
                string_append(&mut m, ", ");
                push_decimal(&mut m, *right_idx);
                string_append(&mut m, ") out of range (left_len=");
                push_decimal(&mut m, *left_len);
                string_append(&mut m, ", right_len=");
                push_decimal(&mut m, *right_len);
                string_append(&mut m, ")");
                m
            },
            AlignedUmapError::DatasetSampleMismatch {
                left_slice,
                right_slice,
                left_samples,
                right_samples,
            } => {
                let mut m = string_of("identity alignment requires equal sample counts; slices ");
                push_decimal(&mut m, *left_slice);
                string_append(&mut m, " and ");
                push_decimal(&mut m, *right_slice);
                string_append(&mut m, " have ");
                push_decimal(&mut m, *left_samples);
                string_append(&mut m, " and ");
                push_decimal(&mut m, *right_samples);
                string_append(&mut m, " samples");
                m
            },
            AlignedUmapError::InvalidParameter(msg) => {
                let mut m = string_of("invalid parameter: ");
                string_append(&mut m, msg.as_str());
                m
            },
            AlignedUmapError::Umap(err) => {
                let mut m = string_of("underlying umap error: ");
                let inner = err.message();
                string_append(&mut m, inner.as_str());
                m
            },
        }
    }

    /// The UMAP error this error wraps, if any.
    pub fn source(&self) -> (r: Option<&UmapError>)
        ensures
            r == match *self {
                AlignedUmapError::Umap(err) => Some(&err),
                _ => None,
            },
    {
        match self {
            AlignedUmapError::Umap(err) => Some(err),
            _ => None,
        }
    }
}

impl From<UmapError> for AlignedUmapError {
    fn from(value: UmapError) -> (r: Self) {
        AlignedUmapError::Umap(value)
    }
}

impl vstd::std_specs::convert::FromSpecImpl<UmapError> for AlignedUmapError {
    open spec fn obeys_from_spec() -> bool {
        true
    }

    open spec fn from_spec(v: UmapError) -> Self {
        AlignedUmapError::Umap(v)
    }
}

} // verus!
