//! Failures reported by the forest.

use vstd::prelude::*;

verus! {

/// Why a forest could not be configured, fitted or queried.
#[derive(Clone, Copy, Debug, PartialEq, Eq, Structural)]
pub enum ForestError {
    /// The number of trees or the subsample size is zero.
    InvalidConfig,
    /// The dataset handed to `fit` holds no point.
    EmptyDataset,
    /// The points of the dataset have no features, and a tree would have
    /// to split them.
    NoFeatures,
    /// Points differ in their number of features, among themselves or from
    /// the dataset the forest was fitted on.
    DimensionMismatch,
    /// The operating system could not provide a seed.
    EntropyUnavailable,
}

} // verus!
