//! Isolation Forest anomaly detection over integer-valued features.
//!
//! A forest is an ensemble of randomized binary partitioning trees. Each tree
//! is grown from a subsample of the dataset by repeatedly choosing a feature
//! and a threshold at random; a point that is separated from the rest after
//! few splits is likely an anomaly.
//!
//! Feature values are `i64`. Real-valued data is handed in as fixed point,
//! scaled by the caller.
//!
//! The library grows the trees and reports, for a scored point and each
//! tree, the number of splits the point passes and the size of the leaf it
//! reaches. With `c(n) = 2 (ln n + 0.5772156649) - 2 (n - 1) / n` for
//! `n > 1` and `c(n) = 0` otherwise, the path length of the point in a tree
//! is `edges + c(leaf_size)`, and its anomaly score is
//! `2^(-mean path length / c(subsample size))`. Evaluating these two
//! formulas takes floating point and is left to the caller.
//!
//! Every random choice goes through a [`random::RandomSource`], which
//! records the numbers it hands out. The contracts state the trees as a
//! function of the dataset, the configuration and that record.

pub mod dataset;
pub mod error;
pub mod forest;
pub mod node;
pub mod random;
pub mod sampling;
