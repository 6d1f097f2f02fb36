//! An inverted file of product-quantised residuals.

use vstd::prelude::*;

use crate::bits::is_finite_32;
use crate::clusters::assign_rows;
use crate::codebooks::{
    encode_residual, finite_residual, lookup_tables, query_residual, train_codebook,
};
use crate::dataset::Dataset;
use crate::index::{Described, VectorIndex};
use crate::ivf::train_centroids;
use crate::math::VectorMath;
use crate::ranking::{sort, Ranked, ScoredRow, TopK};
use crate::seqs::{larger, smaller};
use crate::types::{Metric, Neighbor, VectorError};

verus! {

/// How to build and search an [`IvfPqIndex`].
#[derive(Debug, Clone, Copy)]
pub struct IvfPqConfig {
    /// The number of groups.
    pub partitions: usize,
    /// How many groups a search looks at.
    pub probes: usize,
    /// How many rounds of training are made at most.
    pub iterations: usize,
    /// How many slices a vector is cut into.
    pub subquantizers: usize,
    /// The number of codewords for a slice.
    pub codebook_size: usize,
    /// How many rows a search measures exactly.
    pub rerank: usize,
    /// The seed of the generators that the draws come from.
    pub seed: u64,
}

impl Default for IvfPqConfig {
    fn default() -> (config: Self)
        ensures
            config == (IvfPqConfig {
                partitions: 16,
                probes: 4,
                iterations: 12,
                subquantizers: 4,
                codebook_size: 16,
                rerank: 32,
                seed: 0x5eed,
            }),
    {
        IvfPqConfig {
            partitions: 16,
            probes: 4,
            iterations: 12,
            subquantizers: 4,
            codebook_size: 16,
            rerank: 32,
            seed: 0x5eed,
        }
    }
}

/// A row and the codes of its residual.
#[derive(Debug, Clone)]
struct QuantizedRow {
    row: usize,
    codes: Vec<u8>,
}

/// Groups of rows, each stored as the codes of what it differs by from the
/// centroid of its group.
#[derive(Debug, Clone)]
pub struct IvfPqIndex {
    dataset: Dataset,
    config: IvfPqConfig,
    centroids: Vec<Vec<u32>>,
    codebooks: Vec<Vec<Vec<u32>>>,
    lists: Vec<Vec<QuantizedRow>>,
}

/// Whether the groups are in range: at least one is searched, and none needs to
/// be empty.
pub open spec fn valid_groups(config: IvfPqConfig, rows: nat) -> bool {
    1 <= config.probes <= config.partitions <= rows
}

/// Whether vectors of dimension `dimension` can be cut into slices.
pub open spec fn valid_slices(config: IvfPqConfig, dimension: nat) -> bool {
    config.subquantizers > 0 && dimension % (config.subquantizers as nat) == 0
}

/// Whether a codebook can be drawn from the rows, and a code held in a byte.
pub open spec fn valid_codebook(config: IvfPqConfig, rows: nat) -> bool {
    2 <= config.codebook_size <= crate::seqs::min(256, rows)
}

/// Whether a configuration is in range for `rows` rows of dimension
/// `dimension`.
pub open spec fn valid_config(
    rows: nat,
    dimension: nat,
    metric: Metric,
    config: IvfPqConfig,
) -> bool {
    &&& metric == Metric::Euclidean
    &&& config.iterations > 0
    &&& valid_groups(config, rows)
    &&& valid_slices(config, dimension)
    &&& valid_codebook(config, rows)
    &&& config.rerank > 0
}

/// What is said of the first fault of a configuration.
pub open spec fn config_fault(
    rows: nat,
    dimension: nat,
    metric: Metric,
    config: IvfPqConfig,
) -> Seq<char> {
    if metric != Metric::Euclidean {
        "IVF-PQ accepts only Euclidean distance"@
    } else if config.iterations == 0 {
        "iterations must be greater than zero"@
    } else if !valid_groups(config, rows) {
        "probes and partitions must satisfy 1 <= probes <= partitions <= rows"@
    } else if !valid_slices(config, dimension) {
        "dimension must divide evenly into a positive number of subquantizers"@
    } else if !valid_codebook(config, rows) {
        "codebook_size must satisfy 2 <= codebook_size <= min(256, rows)"@
    } else {
        "rerank must be greater than zero"@
    }
}

/// Refuses a configuration that is out of range for a dataset, and any metric
/// but Euclidean distance.
pub fn validate_config(dataset: &Dataset, metric: Metric, config: &IvfPqConfig) -> (result: Result<
    (),
    VectorError,
>)
    ensures
        match result {
            Ok(()) => valid_config(dataset@.len(), dataset.width(), metric, *config),
            Err(VectorError::InvalidConfig(text)) => {
                &&& !valid_config(dataset@.len(), dataset.width(), metric, *config)
                &&& text@ == config_fault(dataset@.len(), dataset.width(), metric, *config)
            },
            Err(_) => false,
        },
{
    if metric != Metric::Euclidean {
        return Err(VectorError::InvalidConfig("IVF-PQ accepts only Euclidean distance"));
    }
    if config.iterations == 0 {
        return Err(VectorError::InvalidConfig("iterations must be greater than zero"));
    }
    if config.partitions == 0 || config.probes == 0 || config.probes > config.partitions
        || config.partitions > dataset.len() {
        return Err(
            VectorError::InvalidConfig(
                "probes and partitions must satisfy 1 <= probes <= partitions <= rows",
            ),
        );
    }
    if config.subquantizers == 0 || dataset.dimension() % config.subquantizers != 0 {
        return Err(
            VectorError::InvalidConfig(
                "dimension must divide evenly into a positive number of subquantizers",
            ),
        );
    }
    if config.codebook_size < 2 || config.codebook_size > smaller(256, dataset.len()) {
        return Err(
            VectorError::InvalidConfig(
                "codebook_size must satisfy 2 <= codebook_size <= min(256, rows)",
            ),
        );
    }
    if config.rerank == 0 {
        return Err(VectorError::InvalidConfig("rerank must be greater than zero"));
    }
    Ok(())
}

/// What each vector differs by from the centroid that it is assigned to.
pub open spec fn residuals_of<M: VectorMath>(
    math: &M,
    vectors: Seq<Seq<u32>>,
    centroids: Seq<Seq<u32>>,
    assignments: Seq<usize>,
) -> Seq<Seq<u32>> {
    Seq::new(
        vectors.len(),
        |row: int|
            crate::codebooks::residual(
                math,
                vectors[row],
                centroids[assignments[row] as int],
            ),
    )
}

/// Whether every component of every residual is finite.
pub open spec fn finite_residuals(residuals: Seq<Seq<u32>>) -> bool {
    forall|row: int|
        0 <= row < residuals.len() ==> crate::dataset::all_finite(#[trigger] residuals[row])
}

/// What each row differs by from its centroid.
fn row_residuals<M: VectorMath>(
    math: &M,
    dataset: &Dataset,
    centroids: &[Vec<u32>],
    assignments: &[usize],
) -> (result: Result<Vec<Vec<u32>>, VectorError>)
    requires
        crate::math::lawful(math),
        assignments@.len() == dataset@.len(),
        crate::clusters::in_clusters(assignments@, centroids@.len()),
    ensures
        ({
            let whole = residuals_of(
                math,
                dataset@,
                crate::dataset::contents(centroids@),
                assignments@,
            );
            match result {
                Ok(found) => crate::dataset::contents(found@) == whole && finite_residuals(whole),
                Err(VectorError::InvalidConfig(text)) => !finite_residuals(whole) && text@
                    == "IVF-PQ training residuals must remain finite"@,
                Err(_) => false,
            }
        }),
{
    let ghost whole = residuals_of(
        math,
        dataset@,
        crate::dataset::contents(centroids@),
        assignments@,
    );
    let mut found: Vec<Vec<u32>> = Vec::new();
    let rows: usize = dataset.len();
    for row in 0..rows
        invariant
            crate::math::lawful(math),
            rows == dataset@.len(),
            assignments@.len() == rows,
            crate::clusters::in_clusters(assignments@, centroids@.len()),
            whole == residuals_of(
                math,
                dataset@,
                crate::dataset::contents(centroids@),
                assignments@,
            ),
            found@.len() == row,
            forall|i: int| 0 <= i < row ==> (#[trigger] found@[i])@ == whole[i],
            forall|i: int| 0 <= i < row ==> crate::dataset::all_finite(#[trigger] whole[i]),
    {
        let cluster: usize = assignments[row];
        match finite_residual(math, dataset.vector(row), centroids[cluster].as_slice()) {
            Ok(residual) => {
                found.push(residual);
            },
            Err(error) => {
                assert(!crate::dataset::all_finite(whole[row as int]));
                return Err(error);
            },
        }
    }
    assert(crate::dataset::contents(found@) =~= whole);
    Ok(found)
}

/// A codebook for each slice of the residuals.
pub open spec fn trained_books<M: VectorMath>(
    math: &M,
    residuals: Seq<Seq<u32>>,
    slice_dim: nat,
    config: IvfPqConfig,
    draws: Seq<Seq<usize>>,
) -> Seq<Seq<Seq<u32>>> {
    Seq::new(
        config.subquantizers as nat,
        |s: int|
            crate::codebooks::trained(
                math,
                crate::codebooks::slices(residuals, s * slice_dim, slice_dim as int),
                slice_dim,
                config.codebook_size as nat,
                config.iterations as nat,
                draws[s],
            ),
    )
}

/// Whether there is a valid list of draws for each codebook.
pub open spec fn valid_codebook_draws(
    draws: Seq<Seq<usize>>,
    subquantizers: nat,
    rows: nat,
) -> bool {
    &&& draws.len() == subquantizers
    &&& forall|s: int|
        0 <= s < draws.len() ==> crate::shuffle::valid_draws(rows, #[trigger] draws[s])
}

/// Trains a codebook for each slice of the residuals.
fn train_books<M: VectorMath>(
    math: &M,
    residuals: &[Vec<u32>],
    slice_dim: usize,
    config: &IvfPqConfig,
    draws: &[Vec<usize>],
) -> (codebooks: Vec<Vec<Vec<u32>>>)
    requires
        crate::math::lawful(math),
        0 < config.codebook_size <= residuals@.len(),
        valid_codebook_draws(
            crate::dataset::contents(draws@),
            config.subquantizers as nat,
            residuals@.len(),
        ),
        crate::codebooks::reach(residuals@, config.subquantizers * slice_dim),
    ensures
        crate::codebooks::books(codebooks@) == trained_books(
            math,
            crate::dataset::contents(residuals@),
            slice_dim as nat,
            *config,
            crate::dataset::contents(draws@),
        ),
        crate::codebooks::shaped(
            crate::codebooks::books(codebooks@),
            config.subquantizers as int,
            config.codebook_size as int,
            slice_dim as int,
        ),
{
    let ghost whole = trained_books(
        math,
        crate::dataset::contents(residuals@),
        slice_dim as nat,
        *config,
        crate::dataset::contents(draws@),
    );
    let mut codebooks: Vec<Vec<Vec<u32>>> = Vec::new();
    let subquantizers: usize = config.subquantizers;
    for s in 0..subquantizers
        invariant
            crate::math::lawful(math),
            subquantizers == config.subquantizers,
            0 < config.codebook_size <= residuals@.len(),
            valid_codebook_draws(
                crate::dataset::contents(draws@),
                config.subquantizers as nat,
                residuals@.len(),
            ),
            crate::codebooks::reach(residuals@, config.subquantizers * slice_dim),
            whole == trained_books(
                math,
                crate::dataset::contents(residuals@),
                slice_dim as nat,
                *config,
                crate::dataset::contents(draws@),
            ),
            codebooks@.len() == s,
            forall|i: int|
                0 <= i < s ==> crate::dataset::contents((#[trigger] codebooks@[i])@) == whole[i],
            forall|i: int|
                0 <= i < s ==> (#[trigger] whole[i]).len() == config.codebook_size
                    && crate::dataset::uniform(whole[i], slice_dim as int),
    {
        proof {
            crate::codebooks::lemma_slice_fits(
                s as int,
                subquantizers as int,
                slice_dim as int,
            );
            assert(config.subquantizers * slice_dim <= residuals@[0].len());
            assert(crate::shuffle::valid_draws(
                residuals@.len(),
                crate::dataset::contents(draws@)[s as int],
            ));
        }
        let offset: usize = s * slice_dim;
        let codebook = train_codebook(
            math,
            residuals,
            offset,
            slice_dim,
            config.codebook_size,
            config.iterations,
            draws[s].as_slice(),
        );
        assert(crate::dataset::contents(codebook@) == whole[s as int]);
        codebooks.push(codebook);
    }
    assert(crate::codebooks::books(codebooks@) =~= whole);
    codebooks
}

/// The rows of each list.
spec fn rows_in(lists: Seq<Vec<QuantizedRow>>) -> Seq<Seq<usize>> {
    Seq::new(
        lists.len(),
        |c: int| Seq::new(lists[c]@.len(), |i: int| lists[c]@[i].row),
    )
}

/// The codes of the rows of each list.
spec fn codes_in(lists: Seq<Vec<QuantizedRow>>) -> Seq<Seq<Seq<u8>>> {
    Seq::new(
        lists.len(),
        |c: int| Seq::new(lists[c]@.len(), |i: int| lists[c]@[i].codes@),
    )
}

/// The codes of the rows of `groups`.
pub open spec fn encoded_groups<M: VectorMath>(
    math: &M,
    groups: Seq<Seq<usize>>,
    residuals: Seq<Seq<u32>>,
    codebooks: Seq<Seq<Seq<u32>>>,
    slice_dim: int,
) -> Seq<Seq<Seq<u8>>> {
    Seq::new(
        groups.len(),
        |c: int|
            Seq::new(
                groups[c].len(),
                |i: int|
                    crate::codebooks::encoded(
                        math,
                        residuals[groups[c][i] as int],
                        codebooks,
                        slice_dim,
                    ),
            ),
    )
}

/// Whether the codes of every row name a codeword of each codebook.
pub open spec fn codes_fit(
    codes: Seq<Seq<Seq<u8>>>,
    subquantizers: int,
    codebook_size: int,
) -> bool {
    forall|c: int, i: int|
        #![trigger codes[c][i]]
        0 <= c < codes.len() && 0 <= i < codes[c].len() ==> code_fits(
            codes[c][i],
            subquantizers,
            codebook_size,
        )
}

/// Whether the codes of a row name a codeword of each codebook.
pub open spec fn code_fits(codes: Seq<u8>, subquantizers: int, codebook_size: int) -> bool {
    &&& codes.len() == subquantizers
    &&& forall|s: int| 0 <= s < codes.len() ==> (#[trigger] codes[s]) < codebook_size
}

/// Codes the residuals, list by list.
fn encode_lists<M: VectorMath>(
    math: &M,
    residuals: &[Vec<u32>],
    assignments: &[usize],
    codebooks: &[Vec<Vec<u32>>],
    slice_dim: usize,
    config: &IvfPqConfig,
) -> (lists: Vec<Vec<QuantizedRow>>)
    requires
        crate::math::lawful(math),
        assignments@.len() == residuals@.len(),
        crate::clusters::in_clusters(assignments@, config.partitions as nat),
        0 < config.codebook_size <= 256,
        crate::codebooks::shaped(
            crate::codebooks::books(codebooks@),
            config.subquantizers as int,
            config.codebook_size as int,
            slice_dim as int,
        ),
        crate::codebooks::reach(residuals@, codebooks@.len() * slice_dim),
    ensures
        rows_in(lists@) == crate::clusters::partition(assignments@, config.partitions as nat),
        codes_in(lists@) == encoded_groups(
            math,
            rows_in(lists@),
            crate::dataset::contents(residuals@),
            crate::codebooks::books(codebooks@),
            slice_dim as int,
        ),
        codes_fit(codes_in(lists@), config.subquantizers as int, config.codebook_size as int),
{
    let mut lists: Vec<Vec<QuantizedRow>> = Vec::new();
    let partitions: usize = config.partitions;
    for c in 0..partitions
        invariant
            lists@.len() == c,
            forall|i: int| 0 <= i < c ==> (#[trigger] lists@[i])@.len() == 0,
    {
        lists.push(Vec::new());
    }
    let ghost words = crate::codebooks::books(codebooks@);
    let ghost vectors = crate::dataset::contents(residuals@);
    assert(rows_in(lists@) =~~= crate::clusters::partition(
        assignments@.take(0),
        config.partitions as nat,
    ));
    for row in 0..residuals.len()
        invariant
            crate::math::lawful(math),
            assignments@.len() == residuals@.len(),
            crate::clusters::in_clusters(assignments@, config.partitions as nat),
            0 < config.codebook_size <= 256,
            words == crate::codebooks::books(codebooks@),
            vectors == crate::dataset::contents(residuals@),
            crate::codebooks::shaped(
                words,
                config.subquantizers as int,
                config.codebook_size as int,
                slice_dim as int,
            ),
            crate::codebooks::reach(residuals@, codebooks@.len() * slice_dim),
            lists@.len() == config.partitions,
            rows_in(lists@) == crate::clusters::partition(
                assignments@.take(row as int),
                config.partitions as nat,
            ),
            forall|c: int, i: int|
                #![trigger lists@[c]@[i]]
                0 <= c < lists@.len() && 0 <= i < lists@[c]@.len() ==> {
                    &&& lists@[c]@[i].codes@ == crate::codebooks::encoded(
                        math,
                        vectors[lists@[c]@[i].row as int],
                        words,
                        slice_dim as int,
                    )
                    &&& code_fits(
                        lists@[c]@[i].codes@,
                        config.subquantizers as int,
                        config.codebook_size as int,
                    )
                },
    {
        let cluster: usize = assignments[row];
        proof {
            assert forall|s: int| 0 <= s < codebooks@.len() implies 0 < (
            #[trigger] codebooks@[s])@.len() <= 256 by {
                assert(words[s].len() == config.codebook_size);
            }
            assert(codebooks@.len() * slice_dim <= residuals@[row as int].len());
        }
        let codes = encode_residual(math, residuals[row].as_slice(), codebooks, slice_dim);
        proof {
            assert forall|s: int| 0 <= s < codes@.len() implies (#[trigger] codes@[s])
                < config.codebook_size by {
                assert(words[s].len() == config.codebook_size);
            }
        }
        let ghost before = lists@;
        let ghost so_far = assignments@.take(row as int);
        let ghost with_row = assignments@.take(row + 1);
        assert(with_row.drop_last() =~= so_far);
        assert(with_row.last() == cluster);
        lists[cluster].push(QuantizedRow { row, codes });
        assert forall|c: int| 0 <= c < config.partitions implies #[trigger] rows_in(lists@)[c]
            == crate::clusters::partition(with_row, config.partitions as nat)[c] by {
            assert(rows_in(before)[c] == crate::clusters::members(so_far, c));
            if c != cluster {
                assert(lists@[c] == before[c]);
            } else {
                assert(rows_in(lists@)[c] =~= rows_in(before)[c].push(row));
            }
        }
        assert(rows_in(lists@) =~= crate::clusters::partition(with_row, config.partitions as nat));
        assert forall|c: int, i: int|
            #![trigger lists@[c]@[i]]
            0 <= c < lists@.len() && 0 <= i < lists@[c]@.len() implies {
            &&& lists@[c]@[i].codes@ == crate::codebooks::encoded(
                math,
                vectors[lists@[c]@[i].row as int],
                words,
                slice_dim as int,
            )
            &&& code_fits(
                lists@[c]@[i].codes@,
                config.subquantizers as int,
                config.codebook_size as int,
            )
        } by {
            if c != cluster {
                assert(lists@[c]@[i] == before[c]@[i]);
            } else if i < before[c]@.len() {
                assert(lists@[c]@[i] == before[c]@[i]);
            }
        }
    }
    assert(assignments@.take(assignments@.len() as int) =~= assignments@);
    assert(codes_in(lists@) =~~= encoded_groups(
        math,
        rows_in(lists@),
        vectors,
        words,
        slice_dim as int,
    ));
    lists
}

/// The rows of scored rows.
pub open spec fn rows_scored(items: Seq<ScoredRow>) -> Seq<usize> {
    Seq::new(items.len(), |i: int| items[i].row)
}

/// Those of `items` whose distance is finite.
pub open spec fn representable(items: Seq<Neighbor>) -> Seq<Neighbor>
    decreases items.len(),
{
    if items.len() == 0 {
        items
    } else if crate::bits::finite_32(items.last().distance) {
        representable(items.drop_last()).push(items.last())
    } else {
        representable(items.drop_last())
    }
}

impl IvfPqIndex {
    /// The vectors that the index was built over.
    pub closed spec fn data(&self) -> Dataset {
        self.dataset
    }

    /// How the index was configured.
    pub closed spec fn settings(&self) -> IvfPqConfig {
        self.config
    }

    /// The centroids of the groups.
    pub closed spec fn centers(&self) -> Seq<Seq<u32>> {
        crate::dataset::contents(self.centroids@)
    }

    /// The codewords of each codebook.
    pub closed spec fn words(&self) -> Seq<Seq<Seq<u32>>> {
        crate::codebooks::books(self.codebooks@)
    }

    /// The rows of each group.
    pub closed spec fn groups(&self) -> Seq<Seq<usize>> {
        rows_in(self.lists@)
    }

    /// The codes of the rows of each group.
    pub closed spec fn codes(&self) -> Seq<Seq<Seq<u8>>> {
        codes_in(self.lists@)
    }

    /// The dimension of a slice.
    pub open spec fn slice_dim(&self) -> nat {
        self.data().width() / (self.settings().subquantizers as nat)
    }

    /// As many groups as configured, each with a centroid, that share out the
    /// rows; a codebook for each slice; and a code in range for each slice of
    /// each row.
    pub open spec fn wf(&self) -> bool {
        &&& self.data().wf()
        &&& valid_config(
            self.data()@.len(),
            self.data().width(),
            Metric::Euclidean,
            self.settings(),
        )
        &&& self.centers().len() == self.settings().partitions
        &&& crate::dataset::uniform(self.centers(), self.data().width() as int)
        &&& crate::codebooks::shaped(
            self.words(),
            self.settings().subquantizers as int,
            self.settings().codebook_size as int,
            self.slice_dim() as int,
        )
        &&& self.groups().len() == self.settings().partitions
        &&& crate::ivf::shares_out(self.groups(), self.data()@.len())
        &&& self.codes().len() == self.groups().len()
        &&& forall|c: int|
            0 <= c < self.codes().len() ==> (#[trigger] self.codes()[c]).len()
                == self.groups()[c].len()
        &&& codes_fit(
            self.codes(),
            self.settings().subquantizers as int,
            self.settings().codebook_size as int,
        )
    }

    /// Groups and codes the rows. `draws` are the draws that the first
    /// centroids are chosen by, `codebook_draws` those for the codebook of each
    /// subquantizer (see [`crate::shuffle::shuffle`]).
    pub fn try_new<M: VectorMath>(
        math: &M,
        dataset: Dataset,
        metric: Metric,
        config: IvfPqConfig,
        draws: &[usize],
        codebook_draws: &[Vec<usize>],
    ) -> (result: Result<Self, VectorError>)
        requires
            crate::math::lawful(math),
            dataset.wf(),
            crate::shuffle::valid_draws(dataset@.len(), draws@),
            valid_config(dataset@.len(), dataset.width(), metric, config) ==> valid_codebook_draws(
                crate::dataset::contents(codebook_draws@),
                config.subquantizers as nat,
                dataset@.len(),
            ),
        ensures
            ({
                let rows = dataset@.len();
                let centers = crate::ivf::trained(
                    math,
                    Metric::Euclidean,
                    dataset@,
                    dataset.width(),
                    config.partitions as nat,
                    config.iterations as nat,
                    draws@,
                );
                let assignments = crate::clusters::assigned(
                    math,
                    Metric::Euclidean,
                    dataset@,
                    centers,
                );
                let residuals = residuals_of(math, dataset@, centers, assignments);
                match result {
                    Ok(index) => {
                        &&& valid_config(rows, dataset.width(), metric, config)
                        &&& finite_residuals(residuals)
                        &&& index.wf()
                        &&& index.data() == dataset
                        &&& index.settings() == config
                        &&& index.centers() == centers
                        &&& index.words() == trained_books(
                            math,
                            residuals,
                            index.slice_dim(),
                            config,
                            crate::dataset::contents(codebook_draws@),
                        )
                        &&& index.groups() == crate::clusters::partition(
                            assignments,
                            config.partitions as nat,
                        )
                        &&& index.codes() == encoded_groups(
                            math,
                            index.groups(),
                            residuals,
                            index.words(),
                            index.slice_dim() as int,
                        )
                    },
                    Err(VectorError::InvalidConfig(text)) => if valid_config(
                        rows,
                        dataset.width(),
                        metric,
                        config,
                    ) {
                        &&& !finite_residuals(residuals)
                        &&& text@ == "IVF-PQ training residuals must remain finite"@
                    } else {
                        text@ == config_fault(rows, dataset.width(), metric, config)
                    },
                    Err(_) => false,
                }
            }),
    {
        if let Err(error) = validate_config(&dataset, metric, &config) {
            return Err(error);
        }
        let centroids = train_centroids(
            math,
            &dataset,
            Metric::Euclidean,
            config.partitions,
            config.iterations,
            draws,
        );
        let assignments = assign_rows(math, &dataset, Metric::Euclidean, centroids.as_slice());
        let residuals = match row_residuals(
            math,
            &dataset,
            centroids.as_slice(),
            assignments.as_slice(),
        ) {
            Ok(residuals) => residuals,
            Err(error) => {
                return Err(error);
            },
        };
        let slice_dim: usize = dataset.dimension() / config.subquantizers;
        proof {
            vstd::arithmetic::div_mod::lemma_fundamental_div_mod(
                dataset.width() as int,
                config.subquantizers as int,
            );
            let whole = crate::dataset::contents(residuals@);
            assert(whole.len() == dataset@.len());
            assert forall|row: int| 0 <= row < residuals@.len() implies config.subquantizers
                * slice_dim <= (#[trigger] residuals@[row]).len() by {
                assert(whole[row].len() == dataset.width()) by {
                    assert(assignments@[row] < centroids@.len());
                    assert(crate::dataset::contents(
                        centroids@,
                    )[assignments@[row] as int].len() == dataset.width());
                    assert(dataset@[row].len() == dataset.width());
                }
            }
        }
        let codebooks = train_books(
            math,
            residuals.as_slice(),
            slice_dim,
            &config,
            codebook_draws,
        );
        assert(codebooks@.len() == crate::codebooks::books(codebooks@).len());
        let lists = encode_lists(
            math,
            residuals.as_slice(),
            assignments.as_slice(),
            codebooks.as_slice(),
            slice_dim,
            &config,
        );
        assert(crate::ivf::made_by(rows_in(lists@), dataset@.len(), assignments@));
        Ok(IvfPqIndex { dataset, config, centroids, codebooks, lists })
    }

    /// The centroids of the groups.
    pub fn centroids(&self) -> (centroids: &[Vec<u32>])
        ensures
            crate::dataset::contents(centroids@) == self.centers(),
    {
        self.centroids.as_slice()
    }

    /// The codewords of each codebook.
    pub fn codebooks(&self) -> (codebooks: &[Vec<Vec<u32>>])
        ensures
            crate::codebooks::books(codebooks@) == self.words(),
    {
        self.codebooks.as_slice()
    }

    /// The number of rows in each group.
    pub fn list_sizes(&self) -> (sizes: Vec<usize>)
        ensures
            sizes@.len() == self.groups().len(),
            forall|c: int|
                0 <= c < sizes@.len() ==> #[trigger] sizes@[c] == self.groups()[c].len(),
    {
        let mut sizes: Vec<usize> = Vec::new();
        for c in 0..self.lists.len()
            invariant
                sizes@.len() == c,
                forall|i: int| 0 <= i < c ==> #[trigger] sizes@[i] == self.lists@[i]@.len(),
        {
            sizes.push(self.lists[c].len());
        }
        sizes
    }

    /// The bytes that the codes take: one for each slice of each row.
    pub fn encoded_bytes(&self) -> (bytes: usize)
        requires
            crate::seqs::grand_total(self.codes()) <= usize::MAX,
        ensures
            bytes == crate::seqs::grand_total(self.codes()),
            self.wf() ==> bytes == self.data()@.len() * self.settings().subquantizers,
    {
        let ghost codes = self.codes();
        let mut bytes: usize = 0;
        for c in 0..self.lists.len()
            invariant
                codes == self.codes(),
                crate::seqs::grand_total(codes) <= usize::MAX,
                bytes == crate::seqs::grand_total(codes.take(c as int)),
        {
            let list = &self.lists[c];
            let ghost group = codes[c as int];
            let ghost before = crate::seqs::grand_total(codes.take(c as int));
            proof {
                assert(codes.take(c + 1).drop_last() =~= codes.take(c as int));
                crate::seqs::lemma_grand_total_of_take(codes, c + 1);
            }
            for i in 0..list.len()
                invariant
                    group.len() == list@.len(),
                    forall|j: int|
                        0 <= j < list@.len() ==> #[trigger] group[j] == list@[j].codes@,
                    before + crate::seqs::total(group) <= usize::MAX,
                    bytes == before + crate::seqs::total(group.take(i as int)),
            {
                proof {
                    assert(group.take(i + 1).drop_last() =~= group.take(i as int));
                    crate::seqs::lemma_total_of_take(group, i + 1);
                }
                assert(group[i as int] == list@[i as int].codes@);
                bytes += list[i].codes.len();
            }
            assert(group.take(group.len() as int) =~= group);
        }
        proof {
            assert(codes.take(codes.len() as int) =~= codes);
            if self.wf() {
                crate::pq_laws::an_index_has_its_shape(self);
            }
        }
        bytes
    }

    /// The bytes that the codewords take: four for each component.
    pub fn codebook_bytes(&self) -> (bytes: usize)
        requires
            crate::seqs::grand_total(self.words()) * 4 <= usize::MAX,
        ensures
            bytes == crate::seqs::grand_total(self.words()) * 4,
            self.wf() ==> bytes == self.settings().codebook_size * self.data().width() * 4,
    {
        let ghost words = self.words();
        let mut bytes: usize = 0;
        for s in 0..self.codebooks.len()
            invariant
                words == self.words(),
                crate::seqs::grand_total(words) * 4 <= usize::MAX,
                bytes == crate::seqs::grand_total(words.take(s as int)) * 4,
        {
            let codebook = &self.codebooks[s];
            let ghost book = words[s as int];
            let ghost before = crate::seqs::grand_total(words.take(s as int));
            proof {
                assert(words.take(s + 1).drop_last() =~= words.take(s as int));
                crate::seqs::lemma_grand_total_of_take(words, s + 1);
            }
            for c in 0..codebook.len()
                invariant
                    book.len() == codebook@.len(),
                    forall|j: int| 0 <= j < codebook@.len() ==> #[trigger] book[j] == codebook@[j]@,
                    (before + crate::seqs::total(book)) * 4 <= usize::MAX,
                    bytes == (before + crate::seqs::total(book.take(c as int))) * 4,
            {
                proof {
                    assert(book.take(c + 1).drop_last() =~= book.take(c as int));
                    crate::seqs::lemma_total_of_take(book, c + 1);
                }
                assert(book[c as int] == codebook@[c as int]@);
                bytes += codebook[c].len() * 4;
            }
            assert(book.take(book.len() as int) =~= book);
        }
        proof {
            assert(words.take(words.len() as int) =~= words);
            if self.wf() {
                crate::pq_laws::an_index_has_its_shape(self);
            }
        }
        bytes
    }

    /// The bytes that the vectors take: four for each component.
    pub fn full_precision_bytes(&self) -> (bytes: usize)
        requires
            self.data()@.len() * self.data().width() * 4 <= usize::MAX,
        ensures
            bytes == self.data()@.len() * self.data().width() * 4,
    {
        let rows: usize = self.dataset.len();
        let dimension: usize = self.dataset.dimension();
        rows * dimension * 4
    }

    /// The `probes` groups whose centroids are nearest to the query, nearest
    /// first.
    pub open spec fn probed_groups<M: VectorMath>(
        &self,
        math: &M,
        query: Seq<u32>,
        probes: nat,
    ) -> Seq<usize> {
        rows_scored(
            crate::ranking::smallest(
                crate::codebooks::codeword_scores(math, query, self.centers()),
                probes,
            ),
        )
    }

    /// The squared distances of the slices of what a query differs by from
    /// centroid `c` from all codewords.
    pub open spec fn tables<M: VectorMath>(&self, math: &M, query: Seq<u32>, c: int) -> Seq<
        Seq<u64>,
    > {
        crate::codebooks::tables_of(
            math,
            crate::codebooks::wide_residual(math, query, self.centers()[c]),
            self.words(),
            self.slice_dim() as int,
        )
    }

    /// The rows of group `c`, each with its score: the sum of the squared
    /// distances of the slices from the codewords that its codes name.
    pub open spec fn group_scores<M: VectorMath>(
        &self,
        math: &M,
        query: Seq<u32>,
        c: int,
    ) -> Seq<ScoredRow> {
        Seq::new(
            self.groups()[c].len(),
            |i: int|
                ScoredRow {
                    row: self.groups()[c][i],
                    score: math.sum_of(
                        named(self.tables(math, query, c), self.codes()[c][i]),
                    ),
                },
        )
    }

    /// The rows of the groups that `order` names with their scores, group by
    /// group.
    pub open spec fn scored<M: VectorMath>(
        &self,
        math: &M,
        query: Seq<u32>,
        order: Seq<usize>,
    ) -> Seq<ScoredRow>
        decreases order.len(),
    {
        if order.len() == 0 {
            Seq::empty()
        } else {
            self.scored(math, query, order.drop_last()) + self.group_scores(
                math,
                query,
                order.last() as int,
            )
        }
    }

    /// The rows that are measured exactly: the `budget` best by score.
    pub open spec fn shortlist<M: VectorMath>(
        &self,
        math: &M,
        query: Seq<u32>,
        probes: nat,
        budget: nat,
    ) -> Seq<usize> {
        rows_scored(
            crate::ranking::smallest(
                self.scored(math, query, self.probed_groups(math, query, probes)),
                budget,
            ),
        )
    }

    /// Each row of the dataset with its exact distance from the query.
    pub open spec fn exact<M: VectorMath>(&self, math: &M, query: Seq<u32>) -> spec_fn(
        usize,
    ) -> Neighbor {
        |row: usize|
            Neighbor {
                row,
                distance: math.root_of(
                    math.squared_distance_of(self.data()@[row as int], query),
                ),
            }
    }

    /// The rows on the shortlist with their exact distances.
    pub open spec fn candidates<M: VectorMath>(
        &self,
        math: &M,
        query: Seq<u32>,
        k: nat,
        probes: nat,
        rerank: nat,
    ) -> Seq<Neighbor> {
        crate::ivf::as_neighbors(
            self.exact(math, query),
            self.shortlist(
                math,
                query,
                probes,
                crate::seqs::min(crate::seqs::max(rerank, k), self.data()@.len()),
            ),
        )
    }

    /// What [`IvfPqIndex::search_with_probes`] answers: a fault of the query,
    /// else one of `probes`, else one of `rerank`, else that too few of the
    /// distances measured are finite, else the nearest of the rows measured.
    pub open spec fn search_answer<M: VectorMath>(
        &self,
        math: &M,
        query: Seq<u32>,
        k: usize,
        probes: usize,
        rerank: usize,
        result: Result<Vec<Neighbor>, VectorError>,
    ) -> bool {
        let dimension = self.data().width() as int;
        let needed = crate::seqs::min(k as nat, self.data()@.len());
        let candidates = self.candidates(
            math,
            query,
            k as nat,
            probes as nat,
            rerank as nat,
        );
        let measured = representable(candidates);
        let too_few = measured.len() < candidates.len() && measured.len() < needed;
        let fits = crate::dataset::query_fits(dimension, query, Metric::Euclidean);
        let probes_fit = 1 <= probes <= self.settings().partitions;
        match result {
            Ok(found) => {
                &&& fits && probes_fit && rerank > 0 && !too_few
                &&& found@ == crate::ranking::smallest(measured, needed)
            },
            Err(error) => if !fits {
                crate::dataset::query_verdict(
                    dimension,
                    query,
                    Metric::Euclidean,
                    Err::<(), VectorError>(error),
                )
            } else {
                &&& !probes_fit || rerank == 0 || too_few
                &&& error matches VectorError::InvalidConfig(text) && text@ == if !probes_fit {
                    "probes must satisfy 1 <= probes <= partitions"@
                } else if rerank == 0 {
                    "rerank must be greater than zero"@
                } else {
                    "IVF-PQ result distances must remain representable as finite f32"@
                }
            },
        }
    }

    /// The centroids by their squared distance from the query, nearest first.
    fn ranked_centroids<M: VectorMath>(&self, math: &M, query: &[u32]) -> (ranked: Vec<ScoredRow>)
        requires
            crate::math::lawful(math),
        ensures
            ranked@ == crate::ranking::ascending(
                crate::codebooks::codeword_scores(math, query@, self.centers()),
            ),
            ranked@.len() == self.centers().len(),
            forall|i: int|
                0 <= i < ranked@.len() ==> (#[trigger] ranked@[i]).row < self.centers().len(),
    {
        let ghost items = crate::codebooks::codeword_scores(math, query@, self.centers());
        let mut ranked: Vec<ScoredRow> = Vec::new();
        for c in 0..self.centroids.len()
            invariant
                crate::math::lawful(math),
                items == crate::codebooks::codeword_scores(math, query@, self.centers()),
                ranked@ == items.take(c as int),
        {
            ranked.push(
                ScoredRow {
                    row: c,
                    score: math.squared_distance(query, self.centroids[c].as_slice()),
                },
            );
            assert(ranked@ =~= items.take(c + 1));
        }
        assert(ranked@ =~= items);
        proof {
            broadcast use vstd::seq_lib::group_to_multiset_ensures;

            crate::ranking::ascending_sorts(items);
            let order = crate::ranking::ascending(items);
            assert forall|i: int| 0 <= i < order.len() implies (#[trigger] order[i]).row
                < self.centers().len() by {
                assert(order.contains(order[i]));
                assert(items.contains(order[i]));
            }
        }
        sort(ranked)
    }

    /// Offers the rows of group `group` with their scores.
    fn score_group<M: VectorMath>(
        &self,
        math: &M,
        query: &[u32],
        group: usize,
        selection: &mut TopK<ScoredRow>,
        Ghost(before): Ghost<Seq<ScoredRow>>,
    )
        requires
            crate::math::lawful(math),
            self.wf(),
            query@.len() == self.data().width(),
            group < self.groups().len(),
            old(selection).wf(),
            old(selection)@ == crate::ranking::smallest(before, old(selection).capacity()),
        ensures
            final(selection).wf(),
            final(selection).capacity() == old(selection).capacity(),
            final(selection)@ == crate::ranking::smallest(
                before + self.group_scores(math, query@, group as int),
                old(selection).capacity(),
            ),
    {
        let slice_dim: usize = self.dataset.dimension() / self.config.subquantizers;
        let ghost scores = self.group_scores(math, query@, group as int);
        let ghost capacity = selection.capacity();
        proof {
            vstd::arithmetic::div_mod::lemma_fundamental_div_mod(
                self.data().width() as int,
                self.settings().subquantizers as int,
            );
            assert(self.centers()[group as int].len() == self.data().width());
            assert(self.codebooks@.len() == self.words().len());
        }
        let residual = query_residual(math, query, self.centroids[group].as_slice());
        let tables = lookup_tables(
            math,
            residual.as_slice(),
            self.codebooks.as_slice(),
            slice_dim,
        );
        assert(crate::dataset::contents(tables@) == self.tables(math, query@, group as int));
        assert(tables@.len() == self.words().len());
        let list = &self.lists[group];
        assert(before + scores.take(0) =~= before);
        for i in 0..list.len()
            invariant
                crate::math::lawful(math),
                self.wf(),
                group < self.groups().len(),
                list@ == self.lists@[group as int]@,
                crate::dataset::contents(tables@) == self.tables(math, query@, group as int),
                tables@.len() == self.words().len(),
                scores == self.group_scores(math, query@, group as int),
                selection.wf(),
                selection.capacity() == capacity,
                selection@ == crate::ranking::smallest(before + scores.take(i as int), capacity),
        {
            let ghost codes = self.codes()[group as int][i as int];
            assert(list@[i as int].codes@ == codes);
            proof {
                assert(code_fits(
                    codes,
                    self.settings().subquantizers as int,
                    self.settings().codebook_size as int,
                ));
                assert forall|s: int| 0 <= s < codes.len() implies (#[trigger] codes[s])
                    < tables@[s]@.len() by {
                    assert(tables@[s]@ == self.tables(math, query@, group as int)[s]);
                    assert(self.words()[s].len() == self.settings().codebook_size);
                }
            }
            let item = ScoredRow {
                row: list[i].row,
                score: score(math, tables.as_slice(), list[i].codes.as_slice()),
            };
            assert(item == scores[i as int]);
            selection.push(item);
            proof {
                crate::ranking::lemma_smallest_push(
                    before + scores.take(i as int),
                    item,
                    capacity,
                );
                assert(before + scores.take(i + 1) =~= (before + scores.take(i as int)).push(
                    item,
                ));
            }
        }
        assert(scores.take(scores.len() as int) =~= scores);
    }

    /// The rows of the `probes` nearest groups with the best scores.
    fn best_scored<M: VectorMath>(
        &self,
        math: &M,
        query: &[u32],
        probes: usize,
        budget: usize,
    ) -> (best: Vec<ScoredRow>)
        requires
            crate::math::lawful(math),
            self.wf(),
            query@.len() == self.data().width(),
            probes <= self.settings().partitions,
        ensures
            best@ == crate::ranking::smallest(
                self.scored(math, query@, self.probed_groups(math, query@, probes as nat)),
                budget as nat,
            ),
    {
        let ranked = self.ranked_centroids(math, query);
        let ghost order = rows_scored(ranked@);
        let mut selection: TopK<ScoredRow> = TopK::new(budget);
        assert(order.take(0) =~= Seq::<usize>::empty());
        assert(selection@ =~= crate::ranking::smallest(
            self.scored(math, query@, order.take(0)),
            budget as nat,
        ));
        for i in 0..probes
            invariant
                crate::math::lawful(math),
                self.wf(),
                query@.len() == self.data().width(),
                probes <= ranked@.len(),
                forall|i: int|
                    0 <= i < ranked@.len() ==> (#[trigger] ranked@[i]).row < self.centers().len(),
                order == rows_scored(ranked@),
                selection.wf(),
                selection.capacity() == budget,
                selection@ == crate::ranking::smallest(
                    self.scored(math, query@, order.take(i as int)),
                    budget as nat,
                ),
        {
            assert(order.take(i + 1).drop_last() =~= order.take(i as int));
            self.score_group(
                math,
                query,
                ranked[i].row,
                &mut selection,
                Ghost(self.scored(math, query@, order.take(i as int))),
            );
        }
        assert(order.take(probes as int) =~= self.probed_groups(math, query@, probes as nat));
        selection.into_sorted()
    }

    /// The `k` nearest of the rows that the codes leave on the shortlist: those
    /// of the `probes` nearest groups with the best scores, `rerank` or `k` of
    /// them, whichever is more.
    pub fn search_with_probes<M: VectorMath>(
        &self,
        math: &M,
        query: &[u32],
        k: usize,
        probes: usize,
        rerank: usize,
    ) -> (result: Result<Vec<Neighbor>, VectorError>)
        requires
            crate::math::lawful(math),
            self.wf(),
        ensures
            self.search_answer(math, query@, k, probes, rerank, result),
    {
        if let Err(error) = self.dataset.validate_query(query, Metric::Euclidean) {
            return Err(error);
        }
        if probes == 0 || probes > self.centroids.len() {
            return Err(
                VectorError::InvalidConfig("probes must satisfy 1 <= probes <= partitions"),
            );
        }
        if rerank == 0 {
            return Err(VectorError::InvalidConfig("rerank must be greater than zero"));
        }
        let needed: usize = smaller(k, self.dataset.len());
        let budget: usize = smaller(larger(rerank, k), self.dataset.len());
        let best = self.best_scored(math, query, probes, budget);
        let ghost candidates = self.candidates(
            math,
            query@,
            k as nat,
            probes as nat,
            rerank as nat,
        );
        proof {
            lemma_best_in_range(self, math, query@, probes as nat, budget as nat);
            assert(candidates.take(0) =~= Seq::<Neighbor>::empty());
        }
        let mut neighbors: Vec<Neighbor> = Vec::new();
        let mut discarded = false;
        for i in 0..best.len()
            invariant
                crate::math::lawful(math),
                candidates.len() == best@.len(),
                forall|i: int|
                    0 <= i < best@.len() ==> (#[trigger] best@[i]).row < self.data()@.len(),
                forall|i: int|
                    0 <= i < best@.len() ==> candidates[i] == #[trigger] self.exact(math, query@)(
                        best@[i].row,
                    ),
                neighbors@ == representable(candidates.take(i as int)),
                discarded == (neighbors@.len() < i),
                neighbors@.len() <= i,
        {
            let row: usize = best[i].row;
            let distance: u32 = math.root(
                math.squared_distance(self.dataset.vector(row), query),
            );
            proof {
                assert(self.exact(math, query@)(best@[i as int].row) == candidates[i as int]);
                assert(candidates.take(i + 1).drop_last() =~= candidates.take(i as int));
            }
            if is_finite_32(distance) {
                neighbors.push(Neighbor { row, distance });
            } else {
                discarded = true;
            }
        }
        assert(candidates.take(candidates.len() as int) =~= candidates);
        if discarded && neighbors.len() < needed {
            return Err(
                VectorError::InvalidConfig(
                    "IVF-PQ result distances must remain representable as finite f32",
                ),
            );
        }
        let mut found = sort(neighbors);
        let ghost sorted = found@;
        found.truncate(needed);
        assert(found@ =~= crate::ranking::first_few(sorted, needed as nat));
        Ok(found)
    }
}

pub proof fn lemma_best_in_range<M: VectorMath>(
    index: &IvfPqIndex,
    math: &M,
    query: Seq<u32>,
    probes: nat,
    budget: nat,
)
    requires
        index.wf(),
        probes <= index.settings().partitions,
    ensures
        ({
            let best = crate::ranking::smallest(
                index.scored(math, query, index.probed_groups(math, query, probes)),
                budget,
            );
            forall|i: int|
                0 <= i < best.len() ==> (#[trigger] best[i]).row < index.data()@.len()
        }),
{
    broadcast use vstd::seq_lib::group_to_multiset_ensures;

    let order = index.probed_groups(math, query, probes);
    let items = crate::codebooks::codeword_scores(math, query, index.centers());
    crate::ivf_laws::lemma_numbered(items, probes);
    let ranked = crate::ranking::smallest(items, probes);
    assert forall|i: int| 0 <= i < order.len() implies #[trigger] order[i]
        < index.groups().len() by {
        assert(ranked[i].rank().1 < items.len());
    }
    lemma_scored_rows(index, math, query, order);
    let scored = index.scored(math, query, order);
    crate::ranking::ascending_sorts(scored);
    let all = crate::ranking::ascending(scored);
    let best = crate::ranking::smallest(scored, budget);
    let assignments = choose|assignments: Seq<usize>|
        #[trigger] crate::ivf::made_by(index.groups(), index.data()@.len(), assignments);
    crate::ivf::lemma_partition_in_range(assignments, index.groups().len());
    lemma_listed_in_range(order, index.groups(), index.data()@.len());
    assert forall|i: int| 0 <= i < best.len() implies (#[trigger] best[i]).row
        < index.data()@.len() by {
        assert(all.contains(all[i]));
        assert(scored.contains(all[i]));
        let j = choose|j: int| 0 <= j < scored.len() && scored[j] == all[i];
        assert(rows_scored(scored)[j] == all[i].row);
    }
}

proof fn lemma_listed_in_range(order: Seq<usize>, groups: Seq<Seq<usize>>, rows: nat)
    requires
        crate::links::in_range(groups, rows),
        forall|i: int| 0 <= i < order.len() ==> (#[trigger] order[i]) < groups.len(),
    ensures
        forall|i: int|
            0 <= i < crate::ivf::listed(order, groups).len() ==> (#[trigger] crate::ivf::listed(
                order,
                groups,
            )[i]) < rows,
    decreases order.len(),
{
    if order.len() > 0 {
        let rest = order.drop_last();
        assert forall|i: int| 0 <= i < rest.len() implies #[trigger] rest[i] == order[i] by {}
        lemma_listed_in_range(rest, groups, rows);
        let before = crate::ivf::listed(rest, groups);
        let last = order[order.len() - 1] as int;
        assert forall|i: int| 0 <= i < crate::ivf::listed(order, groups).len() implies (
        #[trigger] crate::ivf::listed(order, groups)[i]) < rows by {
            if i < before.len() {
                assert(before[i] < rows);
            } else {
                assert(groups[last][i - before.len()] < rows);
            }
        }
    }
}

/// The scored rows of some groups are their rows.
pub proof fn lemma_scored_rows<M: VectorMath>(
    index: &IvfPqIndex,
    math: &M,
    query: Seq<u32>,
    order: Seq<usize>,
)
    ensures
        rows_scored(index.scored(math, query, order)) == crate::ivf::listed(
            order,
            index.groups(),
        ),
    decreases order.len(),
{
    if order.len() > 0 {
        lemma_scored_rows(index, math, query, order.drop_last());
        assert(rows_scored(index.scored(math, query, order)) =~= crate::ivf::listed(
            order,
            index.groups(),
        ));
    } else {
        assert(rows_scored(index.scored(math, query, order)) =~= crate::ivf::listed(
            order,
            index.groups(),
        ));
    }
}

impl Described for IvfPqIndex {
    open spec fn ready(&self) -> bool {
        self.wf()
    }

    open spec fn kind_name(&self) -> Seq<char> {
        "ivf_pq"@
    }

    open spec fn indexed(&self) -> Dataset {
        self.data()
    }

    open spec fn measured_by(&self) -> Metric {
        Metric::Euclidean
    }

    fn kind(&self) -> (kind: &'static str) {
        "ivf_pq"
    }

    fn dataset(&self) -> (dataset: &Dataset) {
        &self.dataset
    }

    fn metric(&self) -> (metric: Metric) {
        Metric::Euclidean
    }
}

impl<M: VectorMath> VectorIndex<M> for IvfPqIndex {
    open spec fn answers(
        &self,
        math: &M,
        query: Seq<u32>,
        k: usize,
        result: Result<Vec<Neighbor>, VectorError>,
    ) -> bool {
        self.search_answer(math, query, k, self.settings().probes, self.settings().rerank, result)
    }

    /// Searches the configured number of groups and measures the configured
    /// number of rows.
    fn search(&self, math: &M, query: &[u32], k: usize) -> (result: Result<
        Vec<Neighbor>,
        VectorError,
    >)
    {
        self.search_with_probes(math, query, k, self.config.probes, self.config.rerank)
    }
}

/// The entries of the tables that the codes name.
pub open spec fn named(tables: Seq<Seq<u64>>, codes: Seq<u8>) -> Seq<u64> {
    Seq::new(codes.len(), |s: int| tables[s][codes[s] as int])
}

/// The sum of the entries of the tables that the codes name.
fn score<M: VectorMath>(
    math: &M,
    tables: &[Vec<u64>],
    codes: &[u8],
) -> (score: u64)
    requires
        crate::math::lawful(math),
        codes@.len() <= tables@.len(),
        forall|s: int|
            0 <= s < codes@.len() ==> (#[trigger] codes@[s]) < tables@[s]@.len(),
    ensures
        score == math.sum_of(named(crate::dataset::contents(tables@), codes@)),
{
    let ghost whole = named(crate::dataset::contents(tables@), codes@);
    let mut terms: Vec<u64> = Vec::new();
    for s in 0..codes.len()
        invariant
            codes@.len() <= tables@.len(),
            forall|s: int|
                0 <= s < codes@.len() ==> (#[trigger] codes@[s]) < tables@[s]@.len(),
            whole == named(crate::dataset::contents(tables@), codes@),
            terms@ == whole.take(s as int),
    {
        let code: u8 = codes[s];
        terms.push(tables[s][code as usize]);
        assert(terms@ =~= whole.take(s + 1));
    }
    assert(terms@ =~= whole);
    math.sum(terms.as_slice())
}

} // verus!
