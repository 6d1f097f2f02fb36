//! What every index shares: metrics, errors and search results.

use vstd::prelude::*;

verus! {

/// How the distance between two vectors is measured.
#[derive(Debug, Clone, Copy, PartialEq, Eq, Structural)]
pub enum Metric {
    /// Straight-line distance.
    Euclidean,
    /// Distance by angle; undefined for a vector of norm zero.
    Cosine,
}

/// Why a dataset, a configuration or a query was refused.
#[derive(Debug, Clone, Copy, PartialEq, Eq)]
pub enum VectorError {
    /// A dataset needs at least one vector.
    EmptyDataset,
    /// A vector or a query has another dimension than the dataset.
    DimensionMismatch {
        /// The dimension of the dataset.
        expected: usize,
        /// The dimension that was met.
        actual: usize,
    },
    /// A component is infinite or a NaN.
    NonFiniteValue {
        /// The vector at fault.
        vector: usize,
        /// The component at fault.
        dimension: usize,
    },
    /// A vector of norm zero was met where an angle is needed.
    ZeroNorm {
        /// The vector at fault.
        vector: usize,
    },
    /// A parameter is out of its range; the text says which.
    InvalidConfig(&'static str),
}

/// A row of a dataset and its distance to a query, as a bit pattern.
#[derive(Debug, Clone, Copy, PartialEq, Eq, Structural)]
pub struct Neighbor {
    /// The row of the dataset.
    pub row: usize,
    /// The single-precision distance of that row to the query.
    pub distance: u32,
}

} // verus!
