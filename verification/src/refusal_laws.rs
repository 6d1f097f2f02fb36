//! Which datasets, configurations and queries are refused, and with which
//! error, said of numbers alone.
//!
//! A single-precision pattern is read by its fields: the exponent takes the
//! eight bits above the lowest twenty-three, the sign the highest.

use vstd::prelude::*;

use crate::bits::{
    is_finite_32, is_zero_32, is_zero_64, square_is_zero_32, total_order_32, total_order_64,
};
use crate::dataset::Dataset;
use crate::hnsw::{HnswConfig, HnswIndex};
use crate::ivf::{train_centroids, IvfFlatConfig, IvfFlatIndex};
use crate::math::VectorMath;
use crate::nsw::{NswConfig, NswIndex};
use crate::pq::{IvfPqConfig, IvfPqIndex};
use crate::types::{Metric, Neighbor, VectorError};

verus! {

/// The exponent field of a single-precision pattern.
pub open spec fn exponent(bits: u32) -> int {
    (bits as int / 0x80_0000) % 0x100
}

/// The fraction field of a single-precision pattern.
pub open spec fn fraction(bits: u32) -> int {
    bits as int % 0x80_0000
}

/// A single-precision number is finite unless its exponent field is all ones.
pub proof fn finite_numbers_have_a_smaller_exponent(bits: u32, finite: bool)
    requires
        call_ensures(is_finite_32, (bits,), finite),
    ensures
        finite <==> exponent(bits) != 0xff,
{
}

/// A single-precision number is zero where nothing but its sign is set.
pub proof fn zeros_have_no_bit_but_the_sign(bits: u32, zero: bool)
    requires
        call_ensures(is_zero_32, (bits,), zero),
    ensures
        zero <==> exponent(bits) == 0 && fraction(bits) == 0,
{
}

/// A double-precision number is zero where nothing but its sign is set.
pub proof fn wide_zeros_have_no_bit_but_the_sign(bits: u64, zero: bool)
    requires
        call_ensures(is_zero_64, (bits,), zero),
    ensures
        zero <==> bits as int % 0x8000_0000_0000_0000 == 0,
{
}

/// The square of a single-precision number vanishes where the number is at most
/// two to the power of -75, whose exponent field is 127 - 75.
pub proof fn squares_vanish_up_to_a_power_of_two(bits: u32, vanishes: bool)
    requires
        call_ensures(square_is_zero_32, (bits,), vanishes),
    ensures
        vanishes <==> exponent(bits) < 127 - 75 || (exponent(bits) == 127 - 75 && fraction(bits)
            == 0),
{
}

/// Single-precision numbers stand in the total order: those with a sign before
/// those without; without a sign a larger pattern is later, with one earlier.
pub proof fn the_total_order_goes_by_sign_and_pattern(left: u32, right: u32, p: i64, q: i64)
    requires
        call_ensures(total_order_32, (left,), p),
        call_ensures(total_order_32, (right,), q),
    ensures
        p < q <==> if left >= 0x8000_0000 {
            right < 0x8000_0000 || right < left
        } else {
            right < 0x8000_0000 && left < right
        },
        p == crate::bits::order_32(left),
{
}

/// Double-precision numbers stand in the total order likewise.
pub proof fn the_wide_total_order_goes_by_sign_and_pattern(
    left: u64,
    right: u64,
    p: i64,
    q: i64,
)
    requires
        call_ensures(total_order_64, (left,), p),
        call_ensures(total_order_64, (right,), q),
    ensures
        p < q <==> if left >= 0x8000_0000_0000_0000 {
            right < 0x8000_0000_0000_0000 || right < left
        } else {
            right < 0x8000_0000_0000_0000 && left < right
        },
        p == crate::bits::order_64(left),
{
}

/// Whether a component counts towards the norm of a query: its square does not
/// vanish.
pub open spec fn counts(bits: u32) -> bool {
    exponent(bits) > 127 - 75 || (exponent(bits) == 127 - 75 && fraction(bits) != 0)
}

/// Whether a query of dimension `width` is answered.
pub open spec fn answered(width: nat, query: Seq<u32>, metric: Metric) -> bool {
    &&& query.len() == width
    &&& forall|i: int| 0 <= i < query.len() ==> #[trigger] exponent(query[i]) != 0xff
    &&& metric == Metric::Cosine ==> exists|i: int|
        0 <= i < query.len() && #[trigger] counts(query[i])
}

/// The error that says why a query of dimension `width` is not answered.
pub open spec fn refused_with(
    width: nat,
    query: Seq<u32>,
    metric: Metric,
    error: VectorError,
) -> bool {
    match error {
        VectorError::DimensionMismatch { expected, actual } => {
            &&& query.len() != width
            &&& expected == width
            &&& actual == query.len()
        },
        VectorError::NonFiniteValue { vector, dimension } => {
            &&& query.len() == width
            &&& vector == dimension
            &&& dimension < query.len()
            &&& exponent(query[dimension as int]) == 0xff
            &&& forall|i: int| 0 <= i < dimension ==> #[trigger] exponent(query[i]) != 0xff
        },
        VectorError::ZeroNorm { vector } => {
            &&& query.len() == width
            &&& vector == 0
            &&& metric == Metric::Cosine
            &&& forall|i: int|
                0 <= i < query.len() ==> #[trigger] exponent(query[i]) != 0xff && !counts(
                    query[i],
                )
        },
        _ => false,
    }
}

proof fn lemma_answered(width: nat, query: Seq<u32>, metric: Metric)
    ensures
        crate::dataset::query_fits(width as int, query, metric) <==> answered(
            width,
            query,
            metric,
        ),
{
    assert forall|i: int| 0 <= i < query.len() implies (crate::bits::finite_32(
        #[trigger] query[i],
    ) <==> exponent(query[i]) != 0xff) && (crate::bits::square_vanishes_32(query[i])
        <==> !counts(query[i])) by {}
    if answered(width, query, metric) {
        assert forall|i: int| 0 <= i < query.len() implies crate::bits::finite_32(
            #[trigger] query[i],
        ) by {
            assert(exponent(query[i]) != 0xff);
        }
        if metric == Metric::Cosine {
            let i = choose|i: int| 0 <= i < query.len() && #[trigger] counts(query[i]);
            assert(!crate::bits::square_vanishes_32(query[i]));
        }
    }
    if crate::dataset::query_fits(width as int, query, metric) && metric == Metric::Cosine {
        let i = choose|i: int|
            0 <= i < query.len() && !crate::bits::square_vanishes_32(#[trigger] query[i]);
        assert(counts(query[i]));
    }
}

proof fn lemma_refused(width: nat, query: Seq<u32>, metric: Metric, error: VectorError)
    requires
        width <= usize::MAX,
        query.len() <= usize::MAX,
        crate::dataset::query_verdict(
            width as int,
            query,
            metric,
            Err::<(), VectorError>(error),
        ),
    ensures
        refused_with(width, query, metric, error),
{
    assert forall|i: int| 0 <= i < query.len() implies (crate::bits::finite_32(
        #[trigger] query[i],
    ) <==> exponent(query[i]) != 0xff) && (crate::bits::square_vanishes_32(query[i])
        <==> !counts(query[i])) by {}
}

/// A query is let pass where it has the dimension of the dataset, its components
/// are finite and, by angle, one of them counts towards its norm; else the error
/// says the first of these that fails.
pub proof fn queries_are_checked(
    dataset: &Dataset,
    query: &[u32],
    metric: Metric,
    result: Result<(), VectorError>,
)
    requires
        dataset.wf(),
        call_ensures(Dataset::validate_query, (dataset, query, metric), result),
    ensures
        match result {
            Ok(_) => answered(dataset.width(), query@, metric),
            Err(error) => refused_with(dataset.width(), query@, metric, error),
        },
        result is Ok <==> answered(dataset.width(), query@, metric),
{
    assert(query.len() == query@.len());
    lemma_answered(dataset.width(), query@, metric);
    if let Err(error) = result {
        lemma_refused(dataset.width(), query@, metric, error);
    }
}

/// Whether a dataset can be indexed: by angle, every row has a component that is
/// not zero.
pub open spec fn indexable(vectors: Seq<Seq<u32>>, metric: Metric) -> bool {
    metric == Metric::Cosine ==> forall|row: int|
        0 <= row < vectors.len() ==> not_all_zero(#[trigger] vectors[row])
}

/// Whether a vector has a component that is not zero.
pub open spec fn not_all_zero(vector: Seq<u32>) -> bool {
    exists|i: int|
        0 <= i < vector.len() && (exponent(#[trigger] vector[i]) != 0 || fraction(vector[i]) != 0)
}

proof fn lemma_indexable(vectors: Seq<Seq<u32>>, metric: Metric)
    ensures
        crate::dataset::fits_metric(vectors, metric) <==> indexable(vectors, metric),
{
    assert forall|vector: Seq<u32>| #[trigger] not_all_zero(vector)
        <==> !crate::dataset::all_zero(vector) by {
        if not_all_zero(vector) {
            let i = choose|i: int|
                0 <= i < vector.len() && (exponent(#[trigger] vector[i]) != 0 || fraction(
                    vector[i],
                ) != 0);
            assert(!crate::bits::zero_32(vector[i]));
        }
        if !crate::dataset::all_zero(vector) {
            let i = choose|i: int|
                0 <= i < vector.len() && !crate::bits::zero_32(#[trigger] vector[i]);
            assert(exponent(vector[i]) != 0 || fraction(vector[i]) != 0);
        }
    }
    if crate::dataset::fits_metric(vectors, metric) && metric == Metric::Cosine {
        assert forall|row: int| 0 <= row < vectors.len() implies not_all_zero(
            #[trigger] vectors[row],
        ) by {
            assert(!crate::dataset::all_zero(vectors[row]));
        }
    }
    if indexable(vectors, metric) && metric == Metric::Cosine {
        assert forall|row: int| 0 <= row < vectors.len() implies !crate::dataset::all_zero(
            #[trigger] vectors[row],
        ) by {
            assert(not_all_zero(vectors[row]));
        }
    }
}

/// A dataset is let pass unless an angle would be taken of a row of zeros.
pub proof fn datasets_are_checked(
    dataset: &Dataset,
    metric: Metric,
    result: Result<(), VectorError>,
)
    requires
        call_ensures(Dataset::validate_for_metric, (dataset, metric), result),
    ensures
        match result {
            Ok(_) => indexable(dataset@, metric),
            Err(error) => !indexable(dataset@, metric) && error == (VectorError::ZeroNorm {
                vector: 0,
            }),
        },
{
    lemma_indexable(dataset@, metric);
}

/// A graph is built unless a row of zeros is in the way or its configuration is
/// out of range; the error says the first that is.
pub proof fn graphs_are_built_or_refused<M: VectorMath>(
    math: &M,
    dataset: Dataset,
    metric: Metric,
    config: NswConfig,
    result: Result<NswIndex, VectorError>,
)
    requires
        call_ensures(NswIndex::try_new::<M>, (math, dataset, metric, config), result),
    ensures
        match result {
            Ok(_) => {
                &&& indexable(dataset@, metric)
                &&& 0 < config.max_connections <= config.ef_construction
                &&& 0 < config.ef_search
            },
            Err(VectorError::ZeroNorm { vector }) => vector == 0 && !indexable(dataset@, metric),
            Err(VectorError::InvalidConfig(text)) => indexable(dataset@, metric) && if
                config.max_connections == 0 {
                text@ == "max_connections must be greater than zero"@
            } else if config.ef_construction < config.max_connections {
                text@ == "ef_construction must be at least max_connections"@
            } else {
                config.ef_search == 0 && text@ == "ef_search must be greater than zero"@
            },
            Err(_) => false,
        },
{
    lemma_indexable(dataset@, metric);
}

/// A hierarchy is built unless a row of zeros is in the way or its configuration
/// is out of range; the error says the first that is.
pub proof fn hierarchies_are_built_or_refused<M: VectorMath>(
    math: &M,
    dataset: Dataset,
    metric: Metric,
    config: HnswConfig,
    flips: &[bool],
    result: Result<HnswIndex, VectorError>,
)
    requires
        call_ensures(HnswIndex::try_new::<M>, (math, dataset, metric, config, flips), result),
    ensures
        match result {
            Ok(_) => {
                &&& indexable(dataset@, metric)
                &&& 0 < config.max_level
                &&& 0 < config.max_connections <= config.ef_construction
                &&& 0 < config.ef_search
            },
            Err(VectorError::ZeroNorm { vector }) => vector == 0 && !indexable(dataset@, metric),
            Err(VectorError::InvalidConfig(text)) => indexable(dataset@, metric) && if
                config.max_level == 0 {
                text@ == "max_level must be greater than zero"@
            } else if config.max_connections == 0 {
                text@ == "max_connections must be greater than zero"@
            } else if config.ef_construction < config.max_connections {
                text@ == "ef_construction must be at least max_connections"@
            } else {
                config.ef_search == 0 && text@ == "ef_search must be greater than zero"@
            },
            Err(_) => false,
        },
{
    lemma_indexable(dataset@, metric);
}

/// Groups are built unless a row of zeros is in the way or their configuration is
/// out of range; the error says the first that is.
pub proof fn groups_are_built_or_refused<M: VectorMath>(
    math: &M,
    dataset: Dataset,
    metric: Metric,
    config: IvfFlatConfig,
    draws: &[usize],
    result: Result<IvfFlatIndex, VectorError>,
)
    requires
        call_ensures(IvfFlatIndex::try_new::<M>, (math, dataset, metric, config, draws), result),
    ensures
        match result {
            Ok(_) => {
                &&& indexable(dataset@, metric)
                &&& 0 < config.iterations
                &&& 0 < config.probes <= config.partitions <= dataset@.len()
            },
            Err(VectorError::ZeroNorm { vector }) => vector == 0 && !indexable(dataset@, metric),
            Err(VectorError::InvalidConfig(text)) => indexable(dataset@, metric) && if
                config.iterations == 0 {
                text@ == "iterations must be greater than zero"@
            } else {
                &&& config.probes == 0 || config.probes > config.partitions || config.partitions
                    > dataset@.len()
                &&& text@ == "probes and partitions must satisfy 1 <= probes <= partitions <= rows"@
            },
            Err(_) => false,
        },
{
    lemma_indexable(dataset@, metric);
}

/// Whether what some row differs by from the centroid that it picks is not
/// finite.
pub open spec fn some_residual_overflows<M: VectorMath>(
    math: &M,
    vectors: Seq<Seq<u32>>,
    centroids: Seq<Seq<u32>>,
) -> bool {
    let key = crate::cluster_laws::centroid_key(math, Metric::Euclidean, vectors, centroids);
    exists|row: usize, c: usize, d: int|
        row < vectors.len() && 0 <= d < vectors[row as int].len()
            && #[trigger] crate::cluster_laws::picks(key, centroids.len(), row, c) && exponent(
            #[trigger] math.difference_of(vectors[row as int][d], centroids[c as int][d]),
        ) == 0xff
}

/// Codes are built unless their configuration is out of range or a difference
/// overflows; the error says the first that is so.
pub proof fn codes_are_built_or_refused<M: VectorMath>(
    math: &M,
    dataset: Dataset,
    metric: Metric,
    config: IvfPqConfig,
    draws: &[usize],
    codebook_draws: &[Vec<usize>],
    result: Result<IvfPqIndex, VectorError>,
)
    requires
        call_ensures(
            IvfPqIndex::try_new::<M>,
            (math, dataset, metric, config, draws, codebook_draws),
            result,
        ),
    ensures
        match result {
            Ok(_) => {
                &&& metric == Metric::Euclidean
                &&& 0 < config.iterations
                &&& 0 < config.probes <= config.partitions <= dataset@.len()
                &&& 0 < config.subquantizers
                &&& dataset.width() % (config.subquantizers as nat) == 0
                &&& 1 < config.codebook_size <= 256
                &&& config.codebook_size <= dataset@.len()
                &&& 0 < config.rerank
            },
            Err(VectorError::InvalidConfig(text)) => if metric == Metric::Cosine {
                text@ == "IVF-PQ accepts only Euclidean distance"@
            } else if config.iterations == 0 {
                text@ == "iterations must be greater than zero"@
            } else if config.probes == 0 || config.probes > config.partitions || config.partitions
                > dataset@.len() {
                text@ == "probes and partitions must satisfy 1 <= probes <= partitions <= rows"@
            } else if config.subquantizers == 0 || dataset.width() % (config.subquantizers as nat)
                != 0 {
                text@ == "dimension must divide evenly into a positive number of subquantizers"@
            } else if config.codebook_size < 2 || config.codebook_size > 256
                || config.codebook_size > dataset@.len() {
                text@ == "codebook_size must satisfy 2 <= codebook_size <= min(256, rows)"@
            } else if config.rerank == 0 {
                text@ == "rerank must be greater than zero"@
            } else {
                text@ == "IVF-PQ training residuals must remain finite"@
            },
            Err(_) => false,
        },
{
}

/// With a configuration in range, codes are built where no difference overflows,
/// and only there.
pub proof fn codes_need_finite_differences<M: VectorMath>(
    math: &M,
    dataset: Dataset,
    config: IvfPqConfig,
    draws: &[usize],
    codebook_draws: &[Vec<usize>],
    centroids: Vec<Vec<u32>>,
    result: Result<IvfPqIndex, VectorError>,
)
    requires
        dataset.wf(),
        0 < config.iterations,
        0 < config.probes <= config.partitions <= dataset@.len(),
        0 < config.subquantizers,
        dataset.width() % (config.subquantizers as nat) == 0,
        1 < config.codebook_size <= 256,
        config.codebook_size <= dataset@.len(),
        0 < config.rerank,
        call_ensures(
            train_centroids::<M>,
            (math, &dataset, Metric::Euclidean, config.partitions, config.iterations, draws),
            centroids,
        ),
        call_ensures(
            IvfPqIndex::try_new::<M>,
            (math, dataset, Metric::Euclidean, config, draws, codebook_draws),
            result,
        ),
    ensures
        result is Ok <==> !some_residual_overflows(
            math,
            dataset@,
            crate::dataset::contents(centroids@),
        ),
{
    let vectors = dataset@;
    let centers = crate::dataset::contents(centroids@);
    let width = dataset.width() as int;
    let rows = crate::clusters::assigned(math, Metric::Euclidean, vectors, centers);
    let residuals = crate::pq::residuals_of(math, vectors, centers, rows);
    let key = crate::cluster_laws::centroid_key(math, Metric::Euclidean, vectors, centers);
    crate::coding_laws::lemma_residuals(math, vectors, centers, width, residuals);
    if some_residual_overflows(math, vectors, centers) {
        let (row, c, d) = choose|row: usize, c: usize, d: int|
            row < vectors.len() && 0 <= d < vectors[row as int].len()
                && #[trigger] crate::cluster_laws::picks(key, centers.len(), row, c) && exponent(
                #[trigger] math.difference_of(vectors[row as int][d], centers[c as int][d]),
            ) == 0xff;
        assert(residuals[row as int] == crate::coding_laws::less(
            math,
            vectors[row as int],
            centers[c as int],
        ));
        assert(!crate::bits::finite_32(residuals[row as int][d]));
        assert(!crate::dataset::all_finite(residuals[row as int]));
        assert(!crate::pq::finite_residuals(residuals));
    } else {
        assert forall|row: int| 0 <= row < residuals.len() implies crate::dataset::all_finite(
            #[trigger] residuals[row],
        ) by {
            let c = rows[row];
            crate::cluster_laws::lemma_picks(
                math,
                Metric::Euclidean,
                vectors,
                centers,
                row as usize,
            );
            assert(crate::cluster_laws::picks(key, centers.len(), row as usize, c));
            let own = crate::coding_laws::less(math, vectors[row], centers[c as int]);
            assert(residuals[row] == own);
            assert forall|d: int| 0 <= d < own.len() implies crate::bits::finite_32(
                #[trigger] own[d],
            ) by {
                assert(own[d] == math.difference_of(vectors[row][d], centers[c as int][d]));
                assert(exponent(
                    math.difference_of(vectors[row][d], centers[c as int][d]),
                ) != 0xff);
            }
        }
        assert(crate::pq::finite_residuals(residuals));
    }
}

/// A search of a graph or of groups is refused for its query first, then for its
/// number of groups.
pub proof fn searches_are_answered_or_refused<M: VectorMath>(
    math: &M,
    graph: &NswIndex,
    hierarchy: &HnswIndex,
    groups: &IvfFlatIndex,
    query: &[u32],
    k: usize,
    effort: usize,
    by_graph: Result<Vec<Neighbor>, VectorError>,
    by_hierarchy: Result<Vec<Neighbor>, VectorError>,
    by_groups: Result<Vec<Neighbor>, VectorError>,
)
    requires
        graph.wf(),
        hierarchy.wf(),
        groups.wf(),
        call_ensures(NswIndex::search_with_ef::<M>, (graph, math, query, k, effort), by_graph),
        call_ensures(
            HnswIndex::search_with_ef::<M>,
            (hierarchy, math, query, k, effort),
            by_hierarchy,
        ),
        call_ensures(
            IvfFlatIndex::search_with_probes::<M>,
            (groups, math, query, k, effort),
            by_groups,
        ),
    ensures
        match by_graph {
            Ok(_) => answered(graph.data().width(), query@, graph.measure()),
            Err(error) => refused_with(graph.data().width(), query@, graph.measure(), error),
        },
        match by_hierarchy {
            Ok(_) => answered(hierarchy.data().width(), query@, hierarchy.measure()),
            Err(error) => refused_with(
                hierarchy.data().width(),
                query@,
                hierarchy.measure(),
                error,
            ),
        },
        match by_groups {
            Ok(_) => {
                &&& answered(groups.data().width(), query@, groups.measure())
                &&& 0 < effort <= groups.centers().len()
            },
            Err(VectorError::InvalidConfig(text)) => {
                &&& answered(groups.data().width(), query@, groups.measure())
                &&& effort == 0 || effort > groups.centers().len()
                &&& text@ == "probes must satisfy 1 <= probes <= partitions"@
            },
            Err(error) => refused_with(groups.data().width(), query@, groups.measure(), error),
        },
{
    assert(query.len() == query@.len());
    lemma_answered(graph.data().width(), query@, graph.measure());
    lemma_answered(hierarchy.data().width(), query@, hierarchy.measure());
    lemma_answered(groups.data().width(), query@, groups.measure());
    if let Err(error) = by_graph {
        lemma_refused(graph.data().width(), query@, graph.measure(), error);
    }
    if let Err(error) = by_hierarchy {
        lemma_refused(hierarchy.data().width(), query@, hierarchy.measure(), error);
    }
    if let Err(error) = by_groups {
        if !crate::dataset::query_fits(
            groups.data().width() as int,
            query@,
            groups.measure(),
        ) {
            lemma_refused(groups.data().width(), query@, groups.measure(), error);
        }
    }
}

/// A search of codes is refused for its query first, then for its number of
/// groups, then for its number of rows to measure, and last for want of finite
/// distances.
pub proof fn searches_of_codes_are_answered_or_refused<M: VectorMath>(
    math: &M,
    index: &IvfPqIndex,
    query: &[u32],
    k: usize,
    probes: usize,
    rerank: usize,
    result: Result<Vec<Neighbor>, VectorError>,
)
    requires
        index.wf(),
        call_ensures(
            IvfPqIndex::search_with_probes::<M>,
            (index, math, query, k, probes, rerank),
            result,
        ),
    ensures
        match result {
            Ok(_) => {
                &&& answered(index.data().width(), query@, Metric::Euclidean)
                &&& 0 < probes <= index.centers().len()
                &&& 0 < rerank
            },
            Err(VectorError::InvalidConfig(text)) => {
                &&& answered(index.data().width(), query@, Metric::Euclidean)
                &&& if probes == 0 || probes > index.centers().len() {
                    text@ == "probes must satisfy 1 <= probes <= partitions"@
                } else if rerank == 0 {
                    text@ == "rerank must be greater than zero"@
                } else {
                    &&& text@
                        == "IVF-PQ result distances must remain representable as finite f32"@
                    &&& exists|order: Seq<usize>, shortlist: Seq<usize>| #[trigger]
                        crate::coding_laws::refused_rightly(
                            math,
                            index,
                            query@,
                            k as nat,
                            probes as nat,
                            rerank as nat,
                            order,
                            shortlist,
                        )
                }
            },
            Err(error) => refused_with(index.data().width(), query@, Metric::Euclidean, error),
        },
{
    let width = index.data().width();
    assert(query.len() == query@.len());
    lemma_answered(width, query@, Metric::Euclidean);
    if let Err(error) = result {
        if !crate::dataset::query_fits(width as int, query@, Metric::Euclidean) {
            lemma_refused(width, query@, Metric::Euclidean, error);
        } else if 1 <= probes <= index.centers().len() && rerank > 0 {
            crate::coding_laws::searching_is_refused_for_want_of_finite_distances(
                math,
                index,
                query,
                k,
                probes,
                rerank,
                error,
            );
        }
    }
}

} // verus!
