//! What every index offers.

use vstd::prelude::*;

use crate::dataset::Dataset;
use crate::math::VectorMath;
use crate::types::{Metric, Neighbor, VectorError};

verus! {

/// What an index says of itself.
pub trait Described {
    /// Whether the index is as its constructor left it.
    spec fn ready(&self) -> bool;

    /// What [`Described::kind`] answers.
    spec fn kind_name(&self) -> Seq<char>;

    /// What [`Described::dataset`] answers.
    spec fn indexed(&self) -> Dataset;

    /// What [`Described::metric`] answers.
    spec fn measured_by(&self) -> Metric;

    /// The name of this kind of index.
    fn kind(&self) -> (kind: &'static str)
        ensures
            kind@ == self.kind_name(),
    ;

    /// The vectors that the index was built over.
    fn dataset(&self) -> (dataset: &Dataset)
        ensures
            *dataset == self.indexed(),
    ;

    /// How distances are measured.
    fn metric(&self) -> (metric: Metric)
        ensures
            metric == self.measured_by(),
    ;
}

/// An index that answers which rows of its dataset are nearest to a query, with
/// the arithmetic of an `M`.
pub trait VectorIndex<M: VectorMath>: Described {
    /// Whether `result` is what [`VectorIndex::search`] answers.
    spec fn answers(
        &self,
        math: &M,
        query: Seq<u32>,
        k: usize,
        result: Result<Vec<Neighbor>, VectorError>,
    ) -> bool;

    /// The `k` nearest rows that a search with the configured effort finds.
    fn search(&self, math: &M, query: &[u32], k: usize) -> (result: Result<
        Vec<Neighbor>,
        VectorError,
    >)
        requires
            self.ready(),
            crate::math::lawful(math),
        ensures
            self.answers(math, query@, k, result),
    ;
}

} // verus!
