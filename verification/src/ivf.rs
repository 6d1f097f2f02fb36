//! An inverted file: rows grouped by their nearest centroid.
//!
//! A search looks only at the groups whose centroids are nearest to the query.

use vstd::prelude::*;

use crate::clusters::{assign_rows, lists_from_assignments, update_centroids};
use crate::dataset::Dataset;
use crate::index::{Described, VectorIndex};
use crate::math::VectorMath;
use crate::ranking::{TopK, sort};
use crate::seqs::{copied, same_rows, smaller};
use crate::shuffle::shuffle;
use crate::types::{Metric, Neighbor, VectorError};

verus! {

/// How an inverted file is built and searched.
#[derive(Debug, Clone, Copy)]
pub struct IvfFlatConfig {
    /// The number of groups.
    pub partitions: usize,
    /// The number of groups that a search looks at.
    pub probes: usize,
    /// The most rounds in which centroids are moved.
    pub iterations: usize,
    /// The seed that the first centroids are drawn by.
    pub seed: u64,
}

impl Default for IvfFlatConfig {
    fn default() -> (config: Self)
        ensures
            config.partitions == 16,
            config.probes == 4,
            config.iterations == 12,
            config.seed == 0x5eed,
    {
        IvfFlatConfig { partitions: 16, probes: 4, iterations: 12, seed: 0x5eed }
    }
}

/// An inverted file over a dataset.
#[derive(Debug, Clone)]
pub struct IvfFlatIndex {
    dataset: Dataset,
    metric: Metric,
    config: IvfFlatConfig,
    centroids: Vec<Vec<u32>>,
    lists: Vec<Vec<usize>>,
}

/// Whether a configuration is accepted for `rows` rows.
pub open spec fn valid_config(config: IvfFlatConfig, rows: nat) -> bool {
    &&& config.iterations > 0
    &&& 1 <= config.probes <= config.partitions <= rows
}

/// The text that says what is wrong with a configuration.
pub open spec fn config_fault(config: IvfFlatConfig) -> Seq<char> {
    if config.iterations == 0 {
        "iterations must be greater than zero"@
    } else {
        "probes and partitions must satisfy 1 <= probes <= partitions <= rows"@
    }
}

/// Refuses a configuration that is out of range for `rows` rows.
pub fn validate_config(config: &IvfFlatConfig, rows: usize) -> (result: Result<(), VectorError>)
    ensures
        match result {
            Ok(()) => valid_config(*config, rows as nat),
            Err(VectorError::InvalidConfig(text)) => !valid_config(*config, rows as nat) && text@
                == config_fault(*config),
            Err(_) => false,
        },
{
    if config.iterations == 0 {
        return Err(VectorError::InvalidConfig("iterations must be greater than zero"));
    }
    if config.partitions == 0 || config.probes == 0 || config.probes > config.partitions
        || config.partitions > rows {
        return Err(
            VectorError::InvalidConfig(
                "probes and partitions must satisfy 1 <= probes <= partitions <= rows",
            ),
        );
    }
    Ok(())
}

/// The first centroids: the vectors of the first `partitions` rows drawn.
pub open spec fn first_centroids(
    vectors: Seq<Seq<u32>>,
    partitions: nat,
    draws: Seq<usize>,
) -> Seq<Seq<u32>> {
    Seq::new(
        partitions,
        |c: int| vectors[crate::shuffle::shuffled(vectors.len(), draws)[c] as int],
    )
}

/// The centroids after at most `rounds` more rounds: in each, rows are assigned
/// to their nearest centroids and the centroids moved; it ends early once no
/// assignment changes.
pub open spec fn refined<M: VectorMath>(
    math: &M,
    metric: Metric,
    vectors: Seq<Seq<u32>>,
    dimension: nat,
    centroids: Seq<Seq<u32>>,
    assignments: Seq<usize>,
    rounds: nat,
) -> Seq<Seq<u32>>
    decreases rounds,
{
    if rounds == 0 {
        centroids
    } else {
        let next = crate::clusters::assigned(math, metric, vectors, centroids);
        if next == assignments {
            centroids
        } else {
            refined(
                math,
                metric,
                vectors,
                dimension,
                crate::clusters::updated(
                    math,
                    metric,
                    vectors,
                    dimension,
                    centroids,
                    crate::clusters::partition(next, centroids.len()),
                    centroids.len(),
                ).centroids,
                next,
                (rounds - 1) as nat,
            )
        }
    }
}

/// The centroids that `partitions` groups end up with.
pub open spec fn trained<M: VectorMath>(
    math: &M,
    metric: Metric,
    vectors: Seq<Seq<u32>>,
    dimension: nat,
    partitions: nat,
    iterations: nat,
    draws: Seq<usize>,
) -> Seq<Seq<u32>> {
    refined(
        math,
        metric,
        vectors,
        dimension,
        first_centroids(vectors, partitions, draws),
        Seq::new(vectors.len(), |row: int| usize::MAX),
        iterations,
    )
}

/// Whether `lists` share out `rows` rows: there is an assignment of each row to
/// one list that they were made by.
pub open spec fn shares_out(lists: Seq<Seq<usize>>, rows: nat) -> bool {
    exists|assignments: Seq<usize>| #[trigger] made_by(lists, rows, assignments)
}

/// Whether `lists` were made by `assignments`.
pub open spec fn made_by(lists: Seq<Seq<usize>>, rows: nat, assignments: Seq<usize>) -> bool {
    &&& assignments.len() == rows
    &&& crate::clusters::in_clusters(assignments, lists.len())
    &&& lists == crate::clusters::partition(assignments, lists.len())
}

pub proof fn lemma_partition_in_range(assignments: Seq<usize>, partitions: nat)
    requires
        assignments.len() <= usize::MAX,
    ensures
        crate::links::in_range(
            crate::clusters::partition(assignments, partitions),
            assignments.len(),
        ),
{
    let lists = crate::clusters::partition(assignments, partitions);
    assert forall|c: int, i: int| 0 <= c < lists.len() && 0 <= i < lists[c].len() implies (
    #[trigger] lists[c][i]) < assignments.len() by {
        crate::clusters::members_are_the_rows_assigned(assignments, c);
        assert(crate::clusters::members(assignments, c).contains(lists[c][i]));
    }
}

/// Finds `partitions` centroids for the rows of a dataset.
pub fn train_centroids<M: VectorMath>(
    math: &M,
    dataset: &Dataset,
    metric: Metric,
    partitions: usize,
    iterations: usize,
    draws: &[usize],
) -> (centroids: Vec<Vec<u32>>)
    requires
        crate::math::lawful(math),
        dataset.wf(),
        0 < partitions <= dataset@.len(),
        crate::shuffle::valid_draws(dataset@.len(), draws@),
    ensures
        crate::dataset::contents(centroids@) == trained(
            math,
            metric,
            dataset@,
            dataset.width(),
            partitions as nat,
            iterations as nat,
            draws@,
        ),
        centroids@.len() == partitions,
        crate::dataset::uniform(
            crate::dataset::contents(centroids@),
            dataset.width() as int,
        ),
{
    let rows: usize = dataset.len();
    let order = shuffle(rows, draws);
    let mut centroids: Vec<Vec<u32>> = Vec::new();
    let ghost first = first_centroids(dataset@, partitions as nat, draws@);
    for c in 0..partitions
        invariant
            dataset.wf(),
            partitions <= dataset@.len(),
            order@ == crate::shuffle::shuffled(dataset@.len(), draws@),
            crate::shuffle::permutes(order@, dataset@.len()),
            first == first_centroids(dataset@, partitions as nat, draws@),
            centroids@.len() == c,
            forall|i: int| 0 <= i < c ==> (#[trigger] centroids@[i])@ == first[i],
    {
        assert(order@[c as int] < dataset@.len());
        centroids.push(copied(dataset.vector(order[c])));
    }
    assert(crate::dataset::contents(centroids@) =~= first);
    assert(crate::dataset::uniform(first, dataset.width() as int)) by {
        assert forall|c: int| 0 <= c < first.len() implies (#[trigger] first[c]).len()
            == dataset.width() by {
            assert(order@[c] < dataset@.len());
            assert(dataset@[order@[c] as int].len() == dataset.width());
        }
    }
    let mut assignments: Vec<usize> = Vec::new();
    for i in 0..rows
        invariant
            assignments@.len() == i,
            forall|j: int| 0 <= j < i ==> #[trigger] assignments@[j] == usize::MAX,
    {
        assignments.push(usize::MAX);
    }
    assert(assignments@ =~= Seq::new(dataset@.len(), |row: int| usize::MAX));
    let mut left: usize = iterations;
    while left > 0
        invariant_except_break
            trained(
                math,
                metric,
                dataset@,
                dataset.width(),
                partitions as nat,
                iterations as nat,
                draws@,
            ) == refined(
                math,
                metric,
                dataset@,
                dataset.width(),
                crate::dataset::contents(centroids@),
                assignments@,
                left as nat,
            ),
        invariant
            crate::math::lawful(math),
            dataset.wf(),
            0 < partitions <= dataset@.len(),
            centroids@.len() == partitions,
            crate::dataset::uniform(
                crate::dataset::contents(centroids@),
                dataset.width() as int,
            ),
        ensures
            trained(
                math,
                metric,
                dataset@,
                dataset.width(),
                partitions as nat,
                iterations as nat,
                draws@,
            ) == crate::dataset::contents(centroids@),
        decreases left,
    {
        let next = assign_rows(math, dataset, metric, centroids.as_slice());
        if same_rows(next.as_slice(), assignments.as_slice()) {
            break ;
        }
        assignments = next;
        let lists = lists_from_assignments(assignments.as_slice(), partitions);
        proof {
            lemma_partition_in_range(assignments@, partitions as nat);
            assert(crate::dataset::contents(lists@).len() == partitions);
        }
        update_centroids(math, dataset, metric, &mut centroids, lists.as_slice());
        left -= 1;
    }
    centroids
}

/// The rows of the groups that `order` names, group by group.
pub open spec fn listed(order: Seq<usize>, groups: Seq<Seq<usize>>) -> Seq<usize>
    decreases order.len(),
{
    if order.len() == 0 {
        Seq::empty()
    } else {
        listed(order.drop_last(), groups) + groups[order.last() as int]
    }
}

/// `rows` as neighbours.
pub open spec fn as_neighbors(near: spec_fn(usize) -> Neighbor, rows: Seq<usize>) -> Seq<
    Neighbor,
> {
    Seq::new(rows.len(), |i: int| near(rows[i]))
}

impl IvfFlatIndex {
    /// The vectors that the index was built over.
    pub closed spec fn data(&self) -> Dataset {
        self.dataset
    }

    /// How distances are measured.
    pub closed spec fn measure(&self) -> Metric {
        self.metric
    }

    /// How the index was configured.
    pub closed spec fn settings(&self) -> IvfFlatConfig {
        self.config
    }

    /// The centroids of the groups.
    pub closed spec fn centers(&self) -> Seq<Seq<u32>> {
        crate::dataset::contents(self.centroids@)
    }

    /// The rows of each group.
    pub closed spec fn groups(&self) -> Seq<Seq<usize>> {
        crate::dataset::contents(self.lists@)
    }

    /// As many groups as configured, each with a centroid, that share out the
    /// rows.
    pub open spec fn wf(&self) -> bool {
        &&& self.data().wf()
        &&& valid_config(self.settings(), self.data()@.len())
        &&& self.centers().len() == self.settings().partitions
        &&& self.groups().len() == self.settings().partitions
        &&& crate::dataset::uniform(self.centers(), self.data().width() as int)
        &&& shares_out(self.groups(), self.data()@.len())
    }

    /// Groups the rows. `draws` are the draws that the first centroids are
    /// chosen by (see [`shuffle`]).
    pub fn try_new<M: VectorMath>(
        math: &M,
        dataset: Dataset,
        metric: Metric,
        config: IvfFlatConfig,
        draws: &[usize],
    ) -> (result: Result<Self, VectorError>)
        requires
            crate::math::lawful(math),
            dataset.wf(),
            crate::shuffle::valid_draws(dataset@.len(), draws@),
        ensures
            match result {
                Ok(index) => {
                    &&& crate::dataset::fits_metric(dataset@, metric)
                    &&& valid_config(config, dataset@.len())
                    &&& index.wf()
                    &&& index.data() == dataset
                    &&& index.measure() == metric
                    &&& index.settings() == config
                    &&& index.centers() == trained(
                        math,
                        metric,
                        dataset@,
                        dataset.width(),
                        config.partitions as nat,
                        config.iterations as nat,
                        draws@,
                    )
                    &&& index.groups() == crate::clusters::partition(
                        crate::clusters::assigned(math, metric, dataset@, index.centers()),
                        config.partitions as nat,
                    )
                },
                Err(error) => if !crate::dataset::fits_metric(dataset@, metric) {
                    error == (VectorError::ZeroNorm { vector: 0 })
                } else {
                    &&& !valid_config(config, dataset@.len())
                    &&& error matches VectorError::InvalidConfig(text) && text@ == config_fault(
                        config,
                    )
                },
            },
    {
        if let Err(error) = dataset.validate_for_metric(metric) {
            return Err(error);
        }
        if let Err(error) = validate_config(&config, dataset.len()) {
            return Err(error);
        }
        let centroids = train_centroids(
            math,
            &dataset,
            metric,
            config.partitions,
            config.iterations,
            draws,
        );
        let assignments = assign_rows(math, &dataset, metric, centroids.as_slice());
        let lists = lists_from_assignments(assignments.as_slice(), config.partitions);
        proof {
            let groups = crate::dataset::contents(lists@);
            assert(made_by(groups, dataset@.len(), assignments@));
        }
        Ok(IvfFlatIndex { dataset, metric, config, centroids, lists })
    }

    /// The centroids of the groups.
    pub fn centroids(&self) -> (centroids: &[Vec<u32>])
        ensures
            crate::dataset::contents(centroids@) == self.centers(),
    {
        self.centroids.as_slice()
    }

    /// The number of rows in each group.
    pub fn list_sizes(&self) -> (sizes: Vec<usize>)
        ensures
            sizes@.len() == self.groups().len(),
            forall|c: int|
                0 <= c < sizes@.len() ==> #[trigger] sizes@[c] == self.groups()[c].len(),
    {
        let mut sizes: Vec<usize> = Vec::new();
        for c in 0..self.lists.len()
            invariant
                sizes@.len() == c,
                forall|i: int| 0 <= i < c ==> #[trigger] sizes@[i] == self.lists@[i]@.len(),
        {
            sizes.push(self.lists[c].len());
        }
        sizes
    }

    /// The `probes` groups whose centroids are nearest to the query, nearest
    /// first.
    pub open spec fn probed_groups<M: VectorMath>(
        &self,
        math: &M,
        query: Seq<u32>,
        probes: nat,
    ) -> Seq<usize> {
        crate::graph::rows_of(
            crate::ranking::smallest(
                crate::clusters::centroid_neighbors(math, self.measure(), self.centers(), query),
                probes,
            ),
        )
    }

    /// The rows that a search looks at: those of the groups probed, group by
    /// group.
    pub open spec fn probed<M: VectorMath>(
        &self,
        math: &M,
        query: Seq<u32>,
        probes: nat,
    ) -> Seq<usize> {
        listed(self.probed_groups(math, query, probes), self.groups())
    }

    /// Each row of the dataset with its distance to the query.
    pub open spec fn near<M: VectorMath>(&self, math: &M, query: Seq<u32>) -> spec_fn(
        usize,
    ) -> Neighbor {
        crate::graph::near_query(math, self.measure(), self.data()@, query)
    }

    /// The `k` nearest rows of the `probes` nearest groups.
    pub fn search_with_probes<M: VectorMath>(
        &self,
        math: &M,
        query: &[u32],
        k: usize,
        probes: usize,
    ) -> (result: Result<Vec<Neighbor>, VectorError>)
        requires
            crate::math::lawful(math),
            self.wf(),
        ensures
            self.search_answer(math, query@, k, probes, result),
    {
        if let Err(error) = self.dataset.validate_query(query, self.metric) {
            return Err(error);
        }
        if probes == 0 || probes > self.centroids.len() {
            return Err(
                VectorError::InvalidConfig("probes must satisfy 1 <= probes <= partitions"),
            );
        }
        let ghost centers = self.centers();
        let ghost items = crate::clusters::centroid_neighbors(
            math,
            self.measure(),
            centers,
            query@,
        );
        let mut ranked: Vec<Neighbor> = Vec::new();
        for c in 0..self.centroids.len()
            invariant
                crate::math::lawful(math),
                items == crate::clusters::centroid_neighbors(
                    math,
                    self.measure(),
                    self.centers(),
                    query@,
                ),
                ranked@ == items.take(c as int),
        {
            ranked.push(
                Neighbor {
                    row: c,
                    distance: math.distance(self.metric, self.centroids[c].as_slice(), query),
                },
            );
            assert(ranked@ =~= items.take(c + 1));
        }
        assert(ranked@ =~= items);
        let ranked = sort(ranked);
        let ghost order = ranked@;
        proof {
            crate::ranking::ascending_sorts(items);
            assert forall|i: int| 0 <= i < order.len() implies (#[trigger] order[i]).row
                < self.lists@.len() by {
                assert(order.contains(order[i]));
                assert(items.contains(order[i]));
            }
            let assignments = choose|assignments: Seq<usize>|
                #[trigger] made_by(self.groups(), self.data()@.len(), assignments);
            lemma_partition_in_range(assignments, self.groups().len());
        }
        let ghost near = self.near(math, query@);
        let wanted: usize = smaller(k, self.dataset.len());
        let mut result: TopK<Neighbor> = TopK::new(wanted);
        assert(crate::graph::rows_of(order.take(0)) =~= Seq::<usize>::empty());
        assert(as_neighbors(
            near,
            listed(crate::graph::rows_of(order.take(0)), self.groups()),
        ) =~= Seq::<Neighbor>::empty());
        assert(result@ =~= crate::ranking::smallest(
            as_neighbors(near, listed(crate::graph::rows_of(order.take(0)), self.groups())),
            wanted as nat,
        ));
        for i in 0..probes
            invariant
                crate::math::lawful(math),
                self.wf(),
                order == ranked@,
                probes <= order.len(),
                forall|j: int|
                    0 <= j < order.len() ==> (#[trigger] order[j]).row < self.lists@.len(),
                crate::links::in_range(self.groups(), self.data()@.len()),
                near == self.near(math, query@),
                result.wf(),
                result.capacity() == wanted,
                result@ == crate::ranking::smallest(
                    as_neighbors(
                        near,
                        listed(crate::graph::rows_of(order.take(i as int)), self.groups()),
                    ),
                    wanted as nat,
                ),
        {
            let group: usize = ranked[i].row;
            let list = &self.lists[group];
            let ghost before = listed(crate::graph::rows_of(order.take(i as int)), self.groups());
            assert(list@ == self.groups()[group as int]);
            assert(before + list@.take(0) =~= before);
            for j in 0..list.len()
                invariant
                    crate::math::lawful(math),
                    near == self.near(math, query@),
                    list@ == self.groups()[group as int],
                    0 <= group < self.groups().len(),
                    crate::links::in_range(self.groups(), self.data()@.len()),
                    result.wf(),
                    result.capacity() == wanted,
                    result@ == crate::ranking::smallest(
                        as_neighbors(near, before + list@.take(j as int)),
                        wanted as nat,
                    ),
            {
                let row: usize = list[j];
                assert(self.groups()[group as int][j as int] < self.data()@.len());
                let neighbor = Neighbor {
                    row,
                    distance: math.distance(self.metric, self.dataset.vector(row), query),
                };
                result.push(neighbor);
                proof {
                    let so_far = as_neighbors(near, before + list@.take(j as int));
                    crate::ranking::lemma_smallest_push(so_far, neighbor, wanted as nat);
                    assert(as_neighbors(near, before + list@.take(j + 1)) =~= so_far.push(
                        neighbor,
                    ));
                }
            }
            assert(list@.take(list@.len() as int) =~= list@);
            assert(crate::graph::rows_of(order.take(i + 1)).drop_last() =~= crate::graph::rows_of(
                order.take(i as int),
            ));
        }
        assert(crate::ranking::first_few(order, probes as nat) =~= order.take(probes as int));
        Ok(result.into_sorted())
    }

    /// What [`IvfFlatIndex::search_with_probes`] answers: a fault of the query,
    /// else one of `probes`, else the nearest of the rows probed.
    pub open spec fn search_answer<M: VectorMath>(
        &self,
        math: &M,
        query: Seq<u32>,
        k: usize,
        probes: usize,
        result: Result<Vec<Neighbor>, VectorError>,
    ) -> bool {
        let dimension = self.data().width() as int;
        match result {
            Ok(found) => {
                &&& crate::dataset::query_fits(dimension, query, self.measure())
                &&& 1 <= probes <= self.settings().partitions
                &&& found@ == crate::ranking::smallest(
                    as_neighbors(
                        self.near(math, query),
                        self.probed(math, query, probes as nat),
                    ),
                    crate::seqs::min(k as nat, self.data()@.len()),
                )
            },
            Err(error) => if !crate::dataset::query_fits(dimension, query, self.measure()) {
                crate::dataset::query_verdict(
                    dimension,
                    query,
                    self.measure(),
                    Err::<(), VectorError>(error),
                )
            } else {
                &&& !(1 <= probes <= self.settings().partitions)
                &&& error matches VectorError::InvalidConfig(text) && text@
                    == "probes must satisfy 1 <= probes <= partitions"@
            },
        }
    }
}

impl Described for IvfFlatIndex {
    open spec fn ready(&self) -> bool {
        self.wf()
    }

    open spec fn kind_name(&self) -> Seq<char> {
        "ivf_flat"@
    }

    open spec fn indexed(&self) -> Dataset {
        self.data()
    }

    open spec fn measured_by(&self) -> Metric {
        self.measure()
    }

    fn kind(&self) -> (kind: &'static str) {
        "ivf_flat"
    }

    fn dataset(&self) -> (dataset: &Dataset) {
        &self.dataset
    }

    fn metric(&self) -> (metric: Metric) {
        self.metric
    }
}

impl<M: VectorMath> VectorIndex<M> for IvfFlatIndex {
    open spec fn answers(
        &self,
        math: &M,
        query: Seq<u32>,
        k: usize,
        result: Result<Vec<Neighbor>, VectorError>,
    ) -> bool {
        self.search_answer(math, query, k, self.settings().probes, result)
    }

    /// Searches the configured number of groups.
    fn search(&self, math: &M, query: &[u32], k: usize) -> (result: Result<
        Vec<Neighbor>,
        VectorError,
    >)
    {
        self.search_with_probes(math, query, k, self.config.probes)
    }
}

} // verus!
