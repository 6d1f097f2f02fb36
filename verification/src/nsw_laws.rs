//! What building and searching an [`NswIndex`] do, said of what the calls were
//! given and what they answered.

use vstd::prelude::*;

use crate::dataset::Dataset;
use crate::index::VectorIndex;
use crate::math::VectorMath;
use crate::nsw::{NswConfig, NswIndex};
use crate::types::{Metric, Neighbor, VectorError};

verus! {

/// Whether `stages` lead from no links at all to `edges`, one row linked in at
/// each: to the `max_connections` nearest to it that a search from row 0 finds
/// among the rows before it, which keeps `ef_construction` of them.
pub open spec fn grown_row_by_row<M: VectorMath>(
    math: &M,
    metric: Metric,
    vectors: Seq<Seq<u32>>,
    config: NswConfig,
    stages: Seq<Seq<Seq<usize>>>,
    edges: Seq<Seq<usize>>,
) -> bool {
    &&& stages.len() == vectors.len()
    &&& stages[0].len() == vectors.len()
    &&& forall|a: int| 0 <= a < vectors.len() ==> (#[trigger] stages[0][a]).len() == 0
    &&& forall|row: usize|
        1 <= row < vectors.len() ==> crate::graph_laws::inserted(
            |x: usize| math.distance_of(metric, vectors[x as int], vectors[row as int]),
            |a: usize, b: usize| math.distance_of(metric, vectors[a as int], vectors[b as int]),
            stages[row - 1],
            #[trigger] stages[row as int],
            row,
            0,
            config.ef_construction as nat,
            config.max_connections as nat,
        )
    &&& stages.last() == edges
}

/// A graph is built by linking each row to the rows nearest to it, measured from
/// its own vector, of those that the search may keep; and its links lead both
/// ways, nearest first, within the limit.
pub proof fn building_links_each_row_to_the_nearest<M: VectorMath>(
    math: &M,
    dataset: Dataset,
    metric: Metric,
    config: NswConfig,
    index: NswIndex,
)
    requires
        dataset.wf(),
        call_ensures(NswIndex::try_new::<M>, (math, dataset, metric, config), Ok(index)),
    ensures
        exists|stages: Seq<Seq<Seq<usize>>>| #[trigger]
            grown_row_by_row(math, metric, dataset@, config, stages, index.edges()),
        crate::graph_laws::well_linked(
            |a: usize, b: usize|
                math.distance_of(metric, dataset@[a as int], dataset@[b as int]),
            index.edges(),
            config.max_connections as nat,
        ),
        index.data() == dataset,
        index.measure() == metric,
        index.settings() == config,
{
    let vectors = dataset@;
    let n = vectors.len();
    let stages = Seq::new(
        n,
        |row: int| crate::nsw::built(math, metric, vectors, config, (row + 1) as nat),
    );
    let space = crate::graph::row_space(math, metric, vectors);
    let between = |a: usize, b: usize|
        math.distance_of(metric, vectors[a as int], vectors[b as int]);
    assert forall|row: usize| 1 <= row < n implies crate::graph_laws::inserted(
        |x: usize| math.distance_of(metric, vectors[x as int], vectors[row as int]),
        |a: usize, b: usize| math.distance_of(metric, vectors[a as int], vectors[b as int]),
        stages[row - 1],
        #[trigger] stages[row as int],
        row,
        0,
        config.ef_construction as nat,
        config.max_connections as nat,
    ) by {
        let before = crate::nsw::built(math, metric, vectors, config, row as nat);
        crate::nsw::building_keeps_the_graph_sound(math, metric, vectors, config, row as nat);
        let walk = crate::nsw::building_walk(math, metric, vectors, config, before, row);
        assert(before[row as int].len() == 0);
        crate::graph_laws::lemma_inserted(
            walk,
            |x: usize| math.distance_of(metric, vectors[x as int], vectors[row as int]),
            space,
            between,
            row,
            0,
            config.max_connections as nat,
        );
        assert(stages[row - 1] == before);
        assert(stages[row as int] == crate::nsw::built(
            math,
            metric,
            vectors,
            config,
            (row + 1) as nat,
        ));
    }
    assert(stages.last() == index.edges());
    assert(grown_row_by_row(math, metric, vectors, config, stages, index.edges()));
    crate::nsw::building_keeps_the_graph_sound(math, metric, vectors, config, n);
    crate::graph_laws::lemma_well_linked(
        space,
        between,
        index.edges(),
        config.max_connections as nat,
    );
}

/// A search of a graph answers the first `k` of what a search of its links from
/// row 0 finds that keeps `ef_search` rows, or `k` where that is more, or one.
pub proof fn searching_finds_the_nearest<M: VectorMath>(
    math: &M,
    index: &NswIndex,
    query: &[u32],
    k: usize,
    ef_search: usize,
    found: Vec<Neighbor>,
)
    requires
        index.wf(),
        call_ensures(NswIndex::search_with_ef::<M>, (index, math, query, k, ef_search), Ok(found)),
    ensures
        exists|all: Seq<Neighbor>|
            crate::graph_laws::searched(
                |row: usize|
                    math.distance_of(index.measure(), index.data()@[row as int], query@),
                index.edges(),
                index.data()@.len(),
                seq![0],
                crate::graph_laws::effort(ef_search, k),
                all,
            ) && #[trigger] crate::graph_laws::cut_to(all, k as nat, found@),
{
    let walk = index.walk(math, query@, crate::seqs::max(ef_search as nat, k as nat));
    let dist = |row: usize| math.distance_of(index.measure(), index.data()@[row as int], query@);
    crate::graph_laws::lemma_searched(walk, dist, seq![0]);
    let all = walk.search(seq![0]);
    assert(crate::graph_laws::cut_to(all, k as nat, found@));
}

/// A search through the common interface is one with the configured effort.
pub proof fn the_common_search_is_the_configured_one<M: VectorMath>(
    math: &M,
    index: &NswIndex,
    query: &[u32],
    k: usize,
    result: Result<Vec<Neighbor>, VectorError>,
)
    requires
        index.wf(),
        call_ensures(<NswIndex as VectorIndex<M>>::search, (index, math, query, k), result),
    ensures
        index.search_answer(math, query@, k, index.settings().ef_search, result),
{
}

} // verus!
