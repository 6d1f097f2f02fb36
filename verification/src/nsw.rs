//! A navigable small world: one layer of links between near rows.

use vstd::prelude::*;

use crate::dataset::Dataset;
use crate::graph::search_layer;
use crate::index::{Described, VectorIndex};
use crate::links::link_row;
use crate::math::VectorMath;
use crate::seqs::larger;
use crate::types::{Metric, Neighbor, VectorError};

verus! {

/// How a navigable small world is built and searched.
#[derive(Debug, Clone, Copy)]
pub struct NswConfig {
    /// The most links that a row keeps.
    pub max_connections: usize,
    /// How many rows a search keeps while the graph is built.
    pub ef_construction: usize,
    /// How many rows a search keeps.
    pub ef_search: usize,
}

impl Default for NswConfig {
    fn default() -> (config: Self)
        ensures
            config.max_connections == 12,
            config.ef_construction == 48,
            config.ef_search == 32,
    {
        NswConfig { max_connections: 12, ef_construction: 48, ef_search: 32 }
    }
}

/// A navigable small world over a dataset.
#[derive(Debug, Clone)]
pub struct NswIndex {
    dataset: Dataset,
    metric: Metric,
    config: NswConfig,
    adjacency: Vec<Vec<usize>>,
    entry_point: usize,
}

/// Whether a configuration is accepted.
pub open spec fn valid_config(config: NswConfig) -> bool {
    &&& config.max_connections > 0
    &&& config.ef_construction >= config.max_connections
    &&& config.ef_search > 0
}

/// The text that says what is wrong with a configuration.
pub open spec fn config_fault(config: NswConfig) -> Seq<char> {
    if config.max_connections == 0 {
        "max_connections must be greater than zero"@
    } else if config.ef_construction < config.max_connections {
        "ef_construction must be at least max_connections"@
    } else {
        "ef_search must be greater than zero"@
    }
}

/// Refuses a configuration that is out of range.
pub fn validate_config(config: &NswConfig) -> (result: Result<(), VectorError>)
    ensures
        match result {
            Ok(()) => valid_config(*config),
            Err(VectorError::InvalidConfig(text)) => !valid_config(*config) && text@
                == config_fault(*config),
            Err(_) => false,
        },
{
    if config.max_connections == 0 {
        return Err(VectorError::InvalidConfig("max_connections must be greater than zero"));
    }
    if config.ef_construction < config.max_connections {
        return Err(
            VectorError::InvalidConfig("ef_construction must be at least max_connections"),
        );
    }
    if config.ef_search == 0 {
        return Err(VectorError::InvalidConfig("ef_search must be greater than zero"));
    }
    Ok(())
}

/// The search for rows to link `row` to.
pub open spec fn building_walk<M: VectorMath>(
    math: &M,
    metric: Metric,
    vectors: Seq<Seq<u32>>,
    config: NswConfig,
    edges: Seq<Seq<usize>>,
    row: usize,
) -> crate::graph::Walk {
    crate::graph::layer_walk(
        math,
        vectors,
        metric,
        vectors[row as int],
        edges,
        crate::seqs::max(
            config.ef_construction as nat,
            config.max_connections as nat,
        ) as usize,
        row,
    )
}

/// The links once the first `rows` rows are linked in: each row in turn is
/// linked to the nearest rows that a search from row 0 finds among those before
/// it.
pub open spec fn built<M: VectorMath>(
    math: &M,
    metric: Metric,
    vectors: Seq<Seq<u32>>,
    config: NswConfig,
    rows: nat,
) -> Seq<Seq<usize>>
    decreases rows,
{
    if rows <= 1 {
        Seq::new(vectors.len(), |i: int| Seq::empty())
    } else {
        let row = (rows - 1) as usize;
        let edges = built(math, metric, vectors, config, (rows - 1) as nat);
        crate::links::linked(
            crate::graph::row_space(math, metric, vectors),
            edges,
            row,
            crate::ranking::first_few(
                crate::graph::rows_of(
                    building_walk(math, metric, vectors, config, edges, row).search(seq![0]),
                ),
                config.max_connections as nat,
            ),
            config.max_connections as nat,
        )
    }
}

/// The first few rows that a search finds can be linked to a row behind them.
pub proof fn lemma_found_rows_are_eligible(
    walk: crate::graph::Walk,
    entries: Seq<usize>,
    row: usize,
    rows: nat,
    k: nat,
)
    requires
        crate::search_laws::proper(walk),
        walk.limit <= row < rows,
    ensures
        crate::links::eligible(
            crate::ranking::first_few(crate::graph::rows_of(walk.search(entries)), k),
            row,
            rows,
        ),
{
    crate::search_laws::search_finds_true_neighbors(walk, entries);
    let found = walk.search(entries);
    let selected = crate::ranking::first_few(crate::graph::rows_of(found), k);
    assert forall|i: int| 0 <= i < selected.len() implies (#[trigger] selected[i])
        < walk.limit by {
        assert(selected[i] == found[i].row);
        assert(found.contains(found[i]));
    }
    assert(selected.no_duplicates()) by {
        assert forall|i: int, j: int|
            0 <= i < selected.len() && 0 <= j < selected.len() && i != j implies selected[i]
            != selected[j] by {
            assert(selected[i] == found[i].row && selected[j] == found[j].row);
            assert(found.contains(found[i]) && found.contains(found[j]));
            assert(found[i] != found[j]);
        }
    }
}

/// Whether every two of the first `rows` rows are linked.
pub open spec fn all_linked(edges: Seq<Seq<usize>>, rows: nat) -> bool {
    forall|a: usize, b: usize|
        a < rows && b < rows && a != b ==> #[trigger] edges[a as int].contains(b)
}

/// However the distances fall, the graph built is sound, no row has more links
/// than it may keep, the links of every row stand nearest first, and rows that
/// were not linked in yet have none. Where a row may keep a link to every other
/// one, every two rows linked in are linked.
pub proof fn building_keeps_the_graph_sound<M: VectorMath>(
    math: &M,
    metric: Metric,
    vectors: Seq<Seq<u32>>,
    config: NswConfig,
    rows: nat,
)
    requires
        rows <= vectors.len() <= usize::MAX,
    ensures
        crate::links::sound(built(math, metric, vectors, config, rows), vectors.len()),
        crate::links::sparse(
            built(math, metric, vectors, config, rows),
            config.max_connections as nat,
        ),
        forall|a: int|
            0 <= a < vectors.len() && a >= rows ==> (#[trigger] built(
                math,
                metric,
                vectors,
                config,
                rows,
            )[a]).len() == 0,
        crate::links::nearest_first(
            crate::graph::row_space(math, metric, vectors),
            built(math, metric, vectors, config, rows),
        ),
        valid_config(config) && vectors.len() <= config.max_connections + 1 ==> all_linked(
            built(math, metric, vectors, config, rows),
            rows,
        ),
    decreases rows,
{
    let after = built(math, metric, vectors, config, rows);
    if rows > 1 {
        let row = (rows - 1) as usize;
        let before = built(math, metric, vectors, config, (rows - 1) as nat);
        building_keeps_the_graph_sound(math, metric, vectors, config, (rows - 1) as nat);
        let walk = building_walk(math, metric, vectors, config, before, row);
        let space = crate::graph::row_space(math, metric, vectors);
        lemma_found_rows_are_eligible(
            walk,
            seq![0],
            row,
            vectors.len(),
            config.max_connections as nat,
        );
        let selected = crate::ranking::first_few(
            crate::graph::rows_of(walk.search(seq![0])),
            config.max_connections as nat,
        );
        crate::links::linking_keeps_the_graph_sound(
            space,
            before,
            row,
            selected,
            config.max_connections as nat,
        );
        assert forall|a: int| 0 <= a < vectors.len() && a >= rows implies (#[trigger] after[a]).len()
            == 0 by {
            if after[a].len() > 0 {
                let b = a as usize;
                let other = after[b as int][0];
                assert(after[b as int].contains(other));
                assert(before[a].len() == 0);
                assert(!before[b as int].contains(other));
                assert(selected.contains(b));
                let i = choose|i: int| 0 <= i < selected.len() && selected[i] == b;
                assert(walk.search(seq![0]).contains(walk.search(seq![0])[i]));
                crate::search_laws::search_finds_true_neighbors(walk, seq![0]);
            }
        }
        if valid_config(config) && vectors.len() <= config.max_connections + 1 {
            let members = Set::new(|a: usize| a < row);
            assert forall|a: usize, b: usize|
                members.contains(a) && members.contains(b) && a != b implies #[trigger] walk.links(
                a,
            ).contains(b) by {
                assert(before[a as int].contains(b));
            }
            crate::search_laws::lemma_members_are_found(
                walk,
                0,
                members,
                config.max_connections as nat,
            );
            assert forall|a: usize, b: usize| a < rows && b < rows && a != b implies #[trigger] after[
                a as int
            ].contains(b) by {
                if a == row {
                    assert(members.contains(b));
                } else if b == row {
                    assert(members.contains(a));
                } else {
                    assert(before[a as int].contains(b));
                }
            }
        }
    }
}

impl NswIndex {
    /// The vectors that the index was built over.
    pub closed spec fn data(&self) -> Dataset {
        self.dataset
    }

    /// How distances are measured.
    pub closed spec fn measure(&self) -> Metric {
        self.metric
    }

    /// How the index was configured.
    pub closed spec fn settings(&self) -> NswConfig {
        self.config
    }

    /// The rows that each row is linked to.
    pub closed spec fn edges(&self) -> Seq<Seq<usize>> {
        crate::dataset::contents(self.adjacency@)
    }

    /// The row that searches start from.
    pub closed spec fn entry(&self) -> usize {
        self.entry_point
    }

    /// A sound graph over the dataset, within the limits of a valid
    /// configuration, entered at row 0, and complete where the limits allow it.
    pub open spec fn wf(&self) -> bool {
        &&& self.data().wf()
        &&& valid_config(self.settings())
        &&& crate::links::sound(self.edges(), self.data()@.len())
        &&& crate::links::sparse(self.edges(), self.settings().max_connections as nat)
        &&& self.data()@.len() <= self.settings().max_connections + 1 ==> all_linked(
            self.edges(),
            self.data()@.len(),
        )
        &&& self.entry() == 0
    }

    /// Builds the graph row by row.
    pub fn try_new<M: VectorMath>(
        math: &M,
        dataset: Dataset,
        metric: Metric,
        config: NswConfig,
    ) -> (result: Result<Self, VectorError>)
        requires
            crate::math::lawful(math),
            dataset.wf(),
        ensures
            match result {
                Ok(index) => {
                    &&& crate::dataset::fits_metric(dataset@, metric)
                    &&& valid_config(config)
                    &&& index.wf()
                    &&& index.data() == dataset
                    &&& index.measure() == metric
                    &&& index.settings() == config
                    &&& index.edges() == built(math, metric, dataset@, config, dataset@.len())
                    &&& crate::links::nearest_first(
                        crate::graph::row_space(math, metric, dataset@),
                        index.edges(),
                    )
                },
                Err(error) => if !crate::dataset::fits_metric(dataset@, metric) {
                    error == (VectorError::ZeroNorm { vector: 0 })
                } else {
                    &&& !valid_config(config)
                    &&& error matches VectorError::InvalidConfig(text) && text@ == config_fault(
                        config,
                    )
                },
            },
    {
        if let Err(error) = dataset.validate_for_metric(metric) {
            return Err(error);
        }
        if let Err(error) = validate_config(&config) {
            return Err(error);
        }
        let rows: usize = dataset.len();
        let mut adjacency: Vec<Vec<usize>> = Vec::new();
        for i in 0..rows
            invariant
                adjacency@.len() == i,
                forall|j: int| 0 <= j < i ==> (#[trigger] adjacency@[j])@.len() == 0,
        {
            adjacency.push(Vec::new());
        }
        let entry_point: usize = 0;
        assert(crate::dataset::contents(adjacency@) =~~= built(math, metric, dataset@, config, 1));
        for row in 1..rows
            invariant
                crate::math::lawful(math),
                dataset.wf(),
                rows == dataset@.len(),
                valid_config(config),
                entry_point == 0,
                crate::dataset::contents(adjacency@) == built(
                    math,
                    metric,
                    dataset@,
                    config,
                    row as nat,
                ),
        {
            let ghost before = crate::dataset::contents(adjacency@);
            let ghost walk = building_walk(math, metric, dataset@, config, before, row);
            let entries: [usize; 1] = [entry_point];
            assert(entries@ =~= seq![0usize]);
            let found = search_layer(
                math,
                &dataset,
                metric,
                dataset.vector(row),
                adjacency.as_slice(),
                entries.as_slice(),
                larger(config.ef_construction, config.max_connections),
                row,
            );
            let selected = first_rows(&found, config.max_connections);
            proof {
                building_keeps_the_graph_sound(math, metric, dataset@, config, row as nat);
                lemma_found_rows_are_eligible(
                    walk,
                    seq![0],
                    row,
                    dataset@.len(),
                    config.max_connections as nat,
                );
                assert(before[row as int].len() == 0);
            }
            link_row(
                math,
                &dataset,
                metric,
                &mut adjacency,
                row,
                selected,
                config.max_connections,
            );
        }
        proof {
            building_keeps_the_graph_sound(math, metric, dataset@, config, dataset@.len());
        }
        Ok(NswIndex { dataset, metric, config, adjacency, entry_point })
    }

    /// The rows that each row is linked to, nearest first (see
    /// [`building_keeps_the_graph_sound`]).
    pub fn adjacency(&self) -> (adjacency: &[Vec<usize>])
        ensures
            crate::dataset::contents(adjacency@) == self.edges(),
    {
        self.adjacency.as_slice()
    }

    /// The search that [`NswIndex::search_with_ef`] makes.
    pub open spec fn walk<M: VectorMath>(&self, math: &M, query: Seq<u32>, ef: nat) ->
        crate::graph::Walk {
        crate::graph::layer_walk(
            math,
            self.data()@,
            self.measure(),
            query,
            self.edges(),
            ef as usize,
            self.data()@.len() as usize,
        )
    }

    /// What [`NswIndex::search_with_ef`] answers: a fault of the query, else the
    /// first `k` rows that the search finds, each with its true distance, at
    /// least one of them where `k` is not zero.
    pub open spec fn search_answer<M: VectorMath>(
        &self,
        math: &M,
        query: Seq<u32>,
        k: usize,
        ef_search: usize,
        result: Result<Vec<Neighbor>, VectorError>,
    ) -> bool {
        let dimension = self.data().width() as int;
        let walk = self.walk(math, query, crate::seqs::max(ef_search as nat, k as nat));
        match result {
            Ok(found) => {
                &&& crate::dataset::query_fits(dimension, query, self.measure())
                &&& found@ == crate::ranking::first_few(
                    walk.search(seq![0]),
                    k as nat,
                )
                &&& found@.len() <= k
                &&& k > 0 ==> found@.len() > 0
                &&& crate::search_laws::true_neighbors(walk, found@)
            },
            Err(error) => {
                &&& !crate::dataset::query_fits(dimension, query, self.measure())
                &&& crate::dataset::query_verdict(
                    dimension,
                    query,
                    self.measure(),
                    Err::<(), VectorError>(error),
                )
            },
        }
    }

    /// The `k` nearest rows that a search finds which keeps `ef_search` rows, or
    /// `k` where that is more.
    pub fn search_with_ef<M: VectorMath>(
        &self,
        math: &M,
        query: &[u32],
        k: usize,
        ef_search: usize,
    ) -> (result: Result<Vec<Neighbor>, VectorError>)
        requires
            crate::math::lawful(math),
            self.wf(),
        ensures
            self.search_answer(math, query@, k, ef_search, result),
    {
        if let Err(error) = self.dataset.validate_query(query, self.metric) {
            return Err(error);
        }
        let entries: [usize; 1] = [self.entry_point];
        assert(entries@ =~= seq![0usize]);
        let found = search_layer(
            math,
            &self.dataset,
            self.metric,
            query,
            self.adjacency.as_slice(),
            entries.as_slice(),
            larger(ef_search, k),
            self.dataset.len(),
        );
        let ghost walk = self.walk(math, query@, crate::seqs::max(ef_search as nat, k as nat));
        let ghost all = found@;
        proof {
            crate::search_laws::search_finds_true_neighbors(walk, seq![0]);
            crate::ranking::lemma_first_few(all, k as nat);
            assert(seq![0usize].contains(0)) by {
                assert(seq![0usize][0] == 0);
            }
        }
        let mut found = found;
        if k < found.len() {
            found.truncate(k);
            assert(found@ =~= all.take(k as int));
        }
        Ok(found)
    }
}

/// The rows of the first `k` of `found`.
pub fn first_rows(found: &Vec<Neighbor>, k: usize) -> (rows: Vec<usize>)
    ensures
        rows@ == crate::ranking::first_few(crate::graph::rows_of(found@), k as nat),
{
    let mut rows: Vec<usize> = Vec::new();
    let count: usize = if k < found.len() {
        k
    } else {
        found.len()
    };
    for i in 0..count
        invariant
            count <= found@.len(),
            rows@ == crate::graph::rows_of(found@).take(i as int),
    {
        rows.push(found[i].row);
        assert(rows@ =~= crate::graph::rows_of(found@).take(i + 1));
    }
    assert(crate::graph::rows_of(found@).take(found@.len() as int) =~= crate::graph::rows_of(
        found@,
    ));
    rows
}

/// A graph over no more rows than a row may keep links, and one, is complete:
/// a row is linked to exactly the other rows.
pub proof fn few_rows_are_all_linked(index: &NswIndex, a: usize, b: usize)
    requires
        index.wf(),
        index.data()@.len() <= index.settings().max_connections + 1,
        a < index.data()@.len(),
    ensures
        index.edges()[a as int].contains(b) <==> b < index.data()@.len() && a != b,
{
    let links = index.edges()[a as int];
    assert(!links.contains(a));
    if links.contains(b) {
        let i = choose|i: int| 0 <= i < links.len() && links[i] == b;
        assert(index.edges()[a as int][i] < index.data()@.len());
    }
}

/// A graph over no more rows than a row may keep links, and one, is searched
/// exactly, whatever `ef_search` is: the answer is the `k` nearest of all rows.
pub proof fn few_rows_are_searched_exactly<M: VectorMath>(
    math: &M,
    index: &NswIndex,
    query: Seq<u32>,
    k: usize,
    ef_search: usize,
)
    requires
        index.wf(),
        index.data()@.len() <= index.settings().max_connections + 1,
    ensures
        crate::ranking::first_few(
            index.walk(
                math,
                query,
                crate::seqs::max(ef_search as nat, k as nat),
            ).search(seq![0]),
            k as nat,
        ) == crate::ranking::smallest(
            crate::ivf::as_neighbors(
                crate::graph::near_query(math, index.measure(), index.data()@, query),
                crate::shuffle::identity(index.data()@.len()),
            ),
            k as nat,
        ),
{
    let walk = index.walk(math, query, crate::seqs::max(ef_search as nat, k as nat));
    assert forall|a: usize, b: usize|
        a < walk.limit && b < walk.limit && a != b implies #[trigger] walk.links(a).contains(
        b,
    ) by {
        assert(index.edges()[a as int].contains(b));
    }
    assert(seq![0usize][0] == 0);
    crate::search_laws::complete_search_is_exact(walk, seq![0], k as nat, 0);
}

impl Described for NswIndex {
    open spec fn ready(&self) -> bool {
        self.wf()
    }

    open spec fn kind_name(&self) -> Seq<char> {
        "nsw"@
    }

    open spec fn indexed(&self) -> Dataset {
        self.data()
    }

    open spec fn measured_by(&self) -> Metric {
        self.measure()
    }

    fn kind(&self) -> (kind: &'static str) {
        "nsw"
    }

    fn dataset(&self) -> (dataset: &Dataset) {
        &self.dataset
    }

    fn metric(&self) -> (metric: Metric) {
        self.metric
    }
}

impl<M: VectorMath> VectorIndex<M> for NswIndex {
    open spec fn answers(
        &self,
        math: &M,
        query: Seq<u32>,
        k: usize,
        result: Result<Vec<Neighbor>, VectorError>,
    ) -> bool {
        self.search_answer(math, query, k, self.settings().ef_search, result)
    }

    /// Searches with the configured `ef_search`.
    fn search(&self, math: &M, query: &[u32], k: usize) -> (result: Result<
        Vec<Neighbor>,
        VectorError,
    >)
    {
        self.search_with_ef(math, query, k, self.config.ef_search)
    }
}

} // verus!
