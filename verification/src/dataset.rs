//! The vectors that an index is built over.

use std::sync::Arc;

use vstd::prelude::*;

use crate::bits::{is_finite_32, is_zero_32, square_is_zero_32};
use crate::types::{Metric, VectorError};

verus! {

/// The contents of a list of vectors.
pub open spec fn contents<T>(lists: Seq<Vec<T>>) -> Seq<Seq<T>> {
    Seq::new(lists.len(), |i: int| lists[i]@)
}

/// One or more vectors of one dimension, shared between its clones.
#[derive(Debug, Clone)]
pub struct Dataset {
    vectors: Arc<Vec<Vec<u32>>>,
    dimension: usize,
}

impl View for Dataset {
    type V = Seq<Seq<u32>>;

    /// The vectors, row by row.
    closed spec fn view(&self) -> Seq<Seq<u32>> {
        contents(self.vectors@)
    }
}

/// Whether all vectors have the dimension `dimension`.
pub open spec fn uniform(vectors: Seq<Seq<u32>>, dimension: int) -> bool {
    forall|row: int| 0 <= row < vectors.len() ==> (#[trigger] vectors[row]).len() == dimension
}

/// The first row whose dimension is not `dimension`.
pub open spec fn first_misfit(vectors: Seq<Seq<u32>>, dimension: int, row: int) -> bool {
    &&& 0 <= row < vectors.len()
    &&& vectors[row].len() != dimension
    &&& forall|other: int|
        0 <= other < row ==> (#[trigger] vectors[other]).len() == dimension
}

/// Whether every component of a vector is zero.
pub open spec fn all_zero(vector: Seq<u32>) -> bool {
    forall|i: int| 0 <= i < vector.len() ==> crate::bits::zero_32(#[trigger] vector[i])
}

/// Whether some vector consists of zeros alone.
pub open spec fn has_zero_vector(vectors: Seq<Seq<u32>>) -> bool {
    exists|row: int| 0 <= row < vectors.len() && all_zero(#[trigger] vectors[row])
}

/// Whether a dataset can be searched by `metric`: no angle is taken of a vector
/// of zeros.
pub open spec fn fits_metric(vectors: Seq<Seq<u32>>, metric: Metric) -> bool {
    metric == Metric::Cosine ==> !has_zero_vector(vectors)
}

/// The component at `i` is the first that is not finite.
pub open spec fn first_non_finite(query: Seq<u32>, i: int) -> bool {
    &&& 0 <= i < query.len()
    &&& !crate::bits::finite_32(query[i])
    &&& forall|j: int| 0 <= j < i ==> crate::bits::finite_32(#[trigger] query[j])
}

/// Whether every component of `query` is finite.
pub open spec fn all_finite(query: Seq<u32>) -> bool {
    forall|i: int| 0 <= i < query.len() ==> crate::bits::finite_32(#[trigger] query[i])
}

/// Whether the norm of a vector of finite numbers, computed in single
/// precision, is zero: every square underflows.
pub open spec fn norm_vanishes(query: Seq<u32>) -> bool {
    forall|i: int| 0 <= i < query.len() ==> crate::bits::square_vanishes_32(#[trigger] query[i])
}

/// What [`Dataset::validate_query`] answers for a dataset of dimension
/// `dimension`: the first of three faults, in this order.
pub open spec fn query_verdict(
    dimension: int,
    query: Seq<u32>,
    metric: Metric,
    verdict: Result<(), VectorError>,
) -> bool {
    if query.len() != dimension {
        verdict == Err::<(), _>(
            VectorError::DimensionMismatch {
                expected: dimension as usize,
                actual: query.len() as usize,
            },
        )
    } else if !all_finite(query) {
        exists|i: int| #[trigger]
            first_non_finite(query, i) && verdict == Err::<(), _>(
                VectorError::NonFiniteValue { vector: i as usize, dimension: i as usize },
            )
    } else if metric == Metric::Cosine && norm_vanishes(query) {
        verdict == Err::<(), _>(VectorError::ZeroNorm { vector: 0 })
    } else {
        verdict == Ok::<(), VectorError>(())
    }
}

/// Whether [`Dataset::validate_query`] lets `query` pass.
pub open spec fn query_fits(dimension: int, query: Seq<u32>, metric: Metric) -> bool {
    &&& query.len() == dimension
    &&& all_finite(query)
    &&& metric == Metric::Cosine ==> !norm_vanishes(query)
}

impl Dataset {
    /// The common dimension of the vectors.
    pub closed spec fn width(&self) -> nat {
        self.dimension as nat
    }

    /// At least one vector, all of one dimension.
    pub open spec fn wf(&self) -> bool {
        &&& 0 < self@.len() <= usize::MAX
        &&& self.width() <= usize::MAX
        &&& uniform(self@, self.width() as int)
    }

    /// The number of vectors.
    pub fn len(&self) -> (len: usize)
        ensures
            len == self@.len(),
    {
        self.vectors.len()
    }

    /// Whether there is no vector.
    pub fn is_empty(&self) -> (empty: bool)
        ensures
            empty == (self@.len() == 0),
    {
        self.vectors.len() == 0
    }

    /// The common dimension of the vectors.
    pub fn dimension(&self) -> (dimension: usize)
        ensures
            dimension == self.width(),
    {
        self.dimension
    }

    /// The vector in row `row`.
    pub fn vector(&self, row: usize) -> (vector: &[u32])
        requires
            row < self@.len(),
        ensures
            vector@ == self@[row as int],
    {
        self.vectors[row].as_slice()
    }

    /// Takes vectors of one dimension, at least one.
    pub fn try_new(vectors: Vec<Vec<u32>>) -> (result: Result<Self, VectorError>)
        ensures
            match result {
                Ok(dataset) => {
                    &&& vectors@.len() > 0
                    &&& dataset.wf()
                    &&& dataset@ == contents(vectors@)
                    &&& dataset.width() == vectors@[0]@.len()
                },
                Err(VectorError::EmptyDataset) => vectors@.len() == 0,
                Err(VectorError::DimensionMismatch { expected, actual }) => {
                    &&& vectors@.len() > 0
                    &&& expected == vectors@[0]@.len()
                    &&& exists|row: int| #[trigger]
                        first_misfit(contents(vectors@), expected as int, row) && actual
                            == vectors@[row]@.len()
                },
                Err(_) => false,
            },
            result is Ok <==> vectors@.len() > 0 && uniform(
                contents(vectors@),
                vectors@[0]@.len() as int,
            ),
    {
        if vectors.len() == 0 {
            return Err(VectorError::EmptyDataset);
        }
        let dimension: usize = vectors[0].len();
        for row in 0..vectors.len()
            invariant
                vectors@.len() > 0,
                dimension == vectors@[0]@.len(),
                forall|other: int|
                    0 <= other < row ==> (#[trigger] contents(vectors@)[other]).len() == dimension,
        {
            let actual: usize = vectors[row].len();
            if actual != dimension {
                assert(contents(vectors@)[row as int].len() == actual);
                assert(first_misfit(contents(vectors@), dimension as int, row as int));
                return Err(VectorError::DimensionMismatch { expected: dimension, actual });
            }
        }
        Ok(Dataset { vectors: Arc::new(vectors), dimension })
    }

    /// All vectors, row by row.
    pub fn vectors(&self) -> (vectors: &[Vec<u32>])
        ensures
            contents(vectors@) == self@,
    {
        self.vectors.as_slice()
    }

    /// Refuses a dataset with a vector of zeros where the metric takes angles.
    pub fn validate_for_metric(&self, metric: Metric) -> (result: Result<(), VectorError>)
        ensures
            result == (if fits_metric(self@, metric) {
                Ok::<(), VectorError>(())
            } else {
                Err::<(), VectorError>(VectorError::ZeroNorm { vector: 0 })
            }),
    {
        if metric == Metric::Cosine {
            for row in 0..self.vectors.len()
                invariant
                    metric == Metric::Cosine,
                    forall|other: int|
                        0 <= other < row ==> !all_zero(#[trigger] self@[other]),
            {
                let vector = self.vectors[row].as_slice();
                assert(vector@ == self@[row as int]);
                let mut zero: bool = true;
                let mut i: usize = 0;
                while i < vector.len() && zero
                    invariant
                        i <= vector@.len(),
                        zero ==> forall|j: int|
                            0 <= j < i ==> crate::bits::zero_32(#[trigger] vector@[j]),
                        !zero ==> !all_zero(vector@),
                    decreases vector@.len() - i,
                {
                    if !is_zero_32(vector[i]) {
                        assert(!crate::bits::zero_32(vector@[i as int]));
                        zero = false;
                    }
                    i += 1;
                }
                if zero {
                    assert(all_zero(self@[row as int]));
                    assert(has_zero_vector(self@));
                    return Err(VectorError::ZeroNorm { vector: 0 });
                }
            }
        }
        Ok(())
    }

    /// Refuses a query of another dimension, one with a component that is not
    /// finite, and, where the metric takes angles, one of norm zero.
    pub fn validate_query(&self, query: &[u32], metric: Metric) -> (result: Result<
        (),
        VectorError,
    >)
        ensures
            query_verdict(self.width() as int, query@, metric, result),
            result is Ok <==> query_fits(self.width() as int, query@, metric),
    {
        if query.len() != self.dimension {
            return Err(
                VectorError::DimensionMismatch { expected: self.dimension, actual: query.len() },
            );
        }
        for i in 0..query.len()
            invariant
                query@.len() == self.dimension,
                forall|j: int| 0 <= j < i ==> crate::bits::finite_32(#[trigger] query@[j]),
        {
            if !is_finite_32(query[i]) {
                assert(first_non_finite(query@, i as int));
                assert(!crate::bits::finite_32(query@[i as int]));
                return Err(VectorError::NonFiniteValue { vector: i, dimension: i });
            }
        }
        if metric == Metric::Cosine {
            let mut i: usize = 0;
            while i < query.len() && square_is_zero_32(query[i])
                invariant
                    i <= query@.len(),
                    forall|j: int|
                        0 <= j < i ==> crate::bits::square_vanishes_32(#[trigger] query@[j]),
                decreases query@.len() - i,
            {
                i += 1;
            }
            if i == query.len() {
                return Err(VectorError::ZeroNorm { vector: 0 });
            }
            assert(!crate::bits::square_vanishes_32(query@[i as int]));
        }
        Ok(())
    }
}

} // verus!
