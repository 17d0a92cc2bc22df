//! Verified index, shape and text logic of a UMAP implementation: argument
//! parsing, precomputed nearest-neighbour validation, top-k neighbour
//! selection, connected components of the fuzzy graph, CSR structure checks
//! and the alignment relations of aligned UMAP.
use vstd::prelude::*;

pub mod types;
pub mod neighbors;
pub mod graph;
pub mod sorting;
pub mod text;
pub mod cli;
pub mod options;
pub mod knn;
pub mod descent;
pub mod aligned;
pub mod errors;
pub mod rows;
pub mod params;
pub mod csr;
pub mod csv;
pub mod model;

verus! {
} // verus!
