//! What building and searching an [`HnswIndex`] do, said of what the calls were
//! given and what they answered.

use vstd::prelude::*;

use crate::dataset::Dataset;
use crate::hnsw::{HnswConfig, HnswIndex, Tower};
use crate::index::VectorIndex;
use crate::math::VectorMath;
use crate::types::{Metric, Neighbor, VectorError};

verus! {

/// Whether a descent through the layer `edges` that began at `from` can have
/// ended at `to`: a row joined to it, not farther, that no linked row is ahead
/// of.
pub open spec fn stopped(
    dist: spec_fn(usize) -> u32,
    edges: Seq<Seq<usize>>,
    limit: nat,
    from: usize,
    to: usize,
) -> bool {
    &&& to < limit
    &&& crate::graph_laws::local_minimum(dist, edges, limit, to)
    &&& !crate::graph_laws::ahead(dist, from, to)
    &&& crate::graph_laws::joined(edges, limit, seq![from], to)
}

/// Whether `to` is the nearest row that a search of the layer `edges` finds which
/// enters at `from` and keeps `width` rows.
pub open spec fn first_found(
    dist: spec_fn(usize) -> u32,
    edges: Seq<Seq<usize>>,
    limit: nat,
    width: nat,
    from: usize,
    to: usize,
) -> bool {
    exists|found: Seq<Neighbor>| #[trigger]
        crate::graph_laws::searched(dist, edges, limit, seq![from], width, found) && found.len()
            > 0 && found[0].row == to
}

/// Whether `stops` are the rows that layers are entered at on the way down,
/// `stops[0]` that of layer `low`: each is where the way through the layer above
/// ended that began at the row this one was entered at. Layers below `turn` are
/// searched for `width` rows, the others descended.
pub open spec fn descent(
    dist: spec_fn(usize) -> u32,
    layers: Seq<Seq<Seq<usize>>>,
    limit: nat,
    low: nat,
    turn: nat,
    width: nat,
    stops: Seq<usize>,
) -> bool {
    &&& stops.len() > 0
    &&& forall|i: int|
        0 <= i < stops.len() - 1 ==> #[trigger] stop_ok(
            dist,
            layers,
            limit,
            low,
            turn,
            width,
            stops,
            i,
        )
}

/// Whether the stop `i` of a descent is where the layer above it leads.
pub open spec fn stop_ok(
    dist: spec_fn(usize) -> u32,
    layers: Seq<Seq<Seq<usize>>>,
    limit: nat,
    low: nat,
    turn: nat,
    width: nat,
    stops: Seq<usize>,
    i: int,
) -> bool {
    let edges = layers[low + i + 1];
    &&& stopped(dist, edges, limit, stops[i + 1], stops[i])
    &&& if low + i + 1 < turn {
        first_found(dist, edges, limit, width, stops[i + 1], stops[i])
    } else {
        crate::graph_laws::slides(dist, edges, limit, stops[i + 1], stops[i])
    }
}

proof fn lemma_lowered_stops<M: VectorMath>(
    math: &M,
    metric: Metric,
    vectors: Seq<Seq<u32>>,
    query: Seq<u32>,
    layers: Seq<Seq<Seq<usize>>>,
    entry: usize,
    high: nat,
    low: nat,
    allowed_rows: usize,
    config: HnswConfig,
    levels: Seq<usize>,
) -> (stops: Seq<usize>)
    requires
        low <= high < layers.len(),
        crate::hnsw::layers_ok(layers, vectors.len(), config, levels, allowed_rows as nat),
        allowed_rows <= vectors.len(),
        crate::hnsw::belongs(levels, allowed_rows as nat, high as int, entry),
    ensures
        stops.len() == high - low + 1,
        stops.last() == entry,
        stops[0] == crate::hnsw::lowered(
            math,
            metric,
            vectors,
            query,
            layers,
            entry,
            high,
            low,
            allowed_rows,
        ),
        descent(
            |row: usize| math.distance_of(metric, vectors[row as int], query),
            layers,
            allowed_rows as nat,
            low,
            0,
            0,
            stops,
        ),
    decreases high,
{
    let dist = |row: usize| math.distance_of(metric, vectors[row as int], query);
    if high == low {
        seq![entry]
    } else {
        let edges = layers[high as int];
        assert(crate::hnsw::layer_ok(
            edges,
            vectors.len(),
            config,
            levels,
            allowed_rows as nat,
            high as int,
        ));
        let walk = crate::graph::layer_walk(
            math,
            vectors,
            metric,
            query,
            edges,
            1,
            allowed_rows,
        );
        let next = walk.greedy(entry);
        crate::graph_laws::lemma_descended(walk, dist, entry);
        crate::search_laws::descent_ends_at_a_local_minimum(walk, entry);
        crate::hnsw::lemma_reached_rows_belong(
            walk,
            entry,
            next,
            vectors.len(),
            config,
            levels,
            allowed_rows as nat,
            high as int,
        );
        let rest = lemma_lowered_stops(
            math,
            metric,
            vectors,
            query,
            layers,
            next,
            (high - 1) as nat,
            low,
            allowed_rows,
            config,
            levels,
        );
        let stops = rest.push(entry);
        assert forall|i: int| 0 <= i < stops.len() - 1 implies #[trigger] stop_ok(
            dist,
            layers,
            allowed_rows as nat,
            low,
            0,
            0,
            stops,
            i,
        ) by {
            if i < rest.len() - 1 {
                assert(stop_ok(dist, layers, allowed_rows as nat, low, 0, 0, rest, i));
                assert(stops[i] == rest[i] && stops[i + 1] == rest[i + 1]);
            } else {
                assert(stops[i] == rest.last());
                assert(stops[i + 1] == entry);
                assert(layers[low + i + 1] == edges);
            }
        }
        stops
    }
}

/// The nearest row that a search finds is where a descent can have ended.
proof fn lemma_nearest_found_stops(
    dist: spec_fn(usize) -> u32,
    edges: Seq<Seq<usize>>,
    limit: nat,
    entry: usize,
    width: nat,
    found: Seq<Neighbor>,
)
    requires
        crate::graph_laws::searched(dist, edges, limit, seq![entry], width, found),
        width >= 1,
        entry < limit,
    ensures
        found.len() > 0,
        stopped(dist, edges, limit, entry, found[0].row),
{
    assert(seq![entry][0] == entry);
    assert(seq![entry].contains(entry));
    assert(crate::graph_laws::found_or_beaten(dist, found, width, entry));
    let best = found[0].row;
    if crate::graph_laws::names(found, entry) {
        let i = choose|i: int| 0 <= i < found.len() && (#[trigger] found[i]).row == entry;
        if i > 0 {
            assert(crate::graph_laws::ahead(dist, found[0].row, found[i].row));
        }
    } else {
        assert(crate::graph_laws::ahead(dist, found[0].row, entry));
    }
    assert forall|next: usize| #[trigger]
        edges[best as int].contains(next) && next < limit implies !crate::graph_laws::ahead(
        dist,
        next,
        best,
    ) by {
        assert(edges[found[0].row as int].contains(next));
        assert(crate::graph_laws::found_or_beaten(dist, found, width, next));
        if crate::graph_laws::names(found, next) {
            let i = choose|i: int| 0 <= i < found.len() && (#[trigger] found[i]).row == next;
            if i > 0 {
                assert(crate::graph_laws::ahead(dist, found[0].row, found[i].row));
            }
        } else {
            assert(crate::graph_laws::ahead(dist, found[0].row, next));
        }
    }
    assert(crate::graph_laws::joined(edges, limit, seq![entry], found[0].row));
}

/// Whether `row` was linked into the lowest layers of `before`, each entered at
/// its stop, to give those of `after`.
pub open spec fn inserted_at_stops(
    dist: spec_fn(usize) -> u32,
    between: spec_fn(usize, usize) -> u32,
    before: Seq<Seq<Seq<usize>>>,
    after: Seq<Seq<Seq<usize>>>,
    row: usize,
    stops: Seq<usize>,
    count: nat,
    width: nat,
    most: nat,
) -> bool {
    forall|l: int|
        0 <= l < count ==> crate::graph_laws::inserted(
            dist,
            between,
            before[l],
            #[trigger] after[l],
            row,
            stops[l],
            width,
            most,
        )
}

#[verifier::rlimit(40)]
proof fn lemma_woven_stops<M: VectorMath>(
    math: &M,
    metric: Metric,
    vectors: Seq<Seq<u32>>,
    config: HnswConfig,
    layers: Seq<Seq<Seq<usize>>>,
    row: usize,
    entry: usize,
    count: nat,
    levels: Seq<usize>,
) -> (stops: Seq<usize>)
    requires
        0 < row < vectors.len() <= usize::MAX,
        config.ef_construction > 0,
        0 < count <= layers.len(),
        forall|l: int|
            0 <= l < count ==> crate::hnsw::layer_ok(
                #[trigger] layers[l],
                vectors.len(),
                config,
                levels,
                row as nat,
                l,
            ),
        levels[row as int] + 1 >= count,
        crate::hnsw::belongs(levels, row as nat, count - 1, entry),
    ensures
        ({
            let dist = |x: usize| math.distance_of(metric, vectors[x as int], vectors[row as int]);
            let between = |a: usize, b: usize|
                math.distance_of(metric, vectors[a as int], vectors[b as int]);
            let after = crate::hnsw::woven(
                math,
                metric,
                vectors,
                config,
                layers,
                row,
                entry,
                count,
            );
            &&& stops.len() == count
            &&& stops.last() == entry
            &&& descent(
                dist,
                layers,
                row as nat,
                0,
                count,
                config.ef_construction as nat,
                stops,
            )
            &&& inserted_at_stops(
                dist,
                between,
                layers,
                after,
                row,
                stops,
                count,
                config.ef_construction as nat,
                config.max_connections as nat,
            )
        }),
    decreases count,
{
    let dist = |x: usize| math.distance_of(metric, vectors[x as int], vectors[row as int]);
    let between = |a: usize, b: usize|
        math.distance_of(metric, vectors[a as int], vectors[b as int]);
    let space = crate::graph::row_space(math, metric, vectors);
    let width = config.ef_construction as nat;
    let most = config.max_connections as nat;
    let level = count - 1;
    let edges = layers[level];
    crate::hnsw::lemma_woven_layer(
        math,
        metric,
        vectors,
        config,
        edges,
        row,
        entry,
        levels,
        level,
    );
    let walk = crate::hnsw::building_walk(math, metric, vectors, config, edges, row);
    let found = walk.search(seq![entry]);
    crate::graph_laws::lemma_searched(walk, dist, seq![entry]);
    crate::graph_laws::lemma_inserted(walk, dist, space, between, row, entry, most);
    lemma_nearest_found_stops(dist, edges, row as nat, entry, width, found);
    let woven_edges = crate::hnsw::woven_layer(math, metric, vectors, config, edges, row, entry);
    let updated = layers.update(level, woven_edges);
    let next = crate::hnsw::next_entry(found, entry);
    let after = crate::hnsw::woven(math, metric, vectors, config, layers, row, entry, count);
    assert(after == crate::hnsw::woven(
        math,
        metric,
        vectors,
        config,
        updated,
        row,
        next,
        level as nat,
    ));
    crate::hnsw::lemma_woven(
        math,
        metric,
        vectors,
        config,
        updated,
        row,
        next,
        level as nat,
        levels,
    );
    assert(after[level] == updated[level]);
    if count == 1 {
        let stops = seq![entry];
        assert(after[0] == woven_edges);
        stops
    } else {
        let rest = lemma_woven_stops(
            math,
            metric,
            vectors,
            config,
            updated,
            row,
            next,
            level as nat,
            levels,
        );
        let stops = rest.push(entry);
        assert forall|i: int| 0 <= i < stops.len() - 1 implies #[trigger] stop_ok(
            dist,
            layers,
            row as nat,
            0,
            count,
            width,
            stops,
            i,
        ) by {
            if i < rest.len() - 1 {
                assert(stop_ok(dist, updated, row as nat, 0, level as nat, width, rest, i));
                assert(stops[i] == rest[i] && stops[i + 1] == rest[i + 1]);
                assert(updated[0 + i + 1] == layers[0 + i + 1]);
            } else {
                assert(stops[i] == rest.last());
                assert(stops[i + 1] == entry);
                assert(layers[0 + i + 1] == edges);
                assert(found[0].row == stops[i]);
            }
        }
        assert forall|l: int| 0 <= l < count implies crate::graph_laws::inserted(
            dist,
            between,
            layers[l],
            #[trigger] after[l],
            row,
            stops[l],
            width,
            most,
        ) by {
            if l < level {
                assert(updated[l] == layers[l]);
                assert(stops[l] == rest[l]);
            }
        }
        stops
    }
}

/// How many layers a row that drew `level` is linked into where the highest so
/// far is `top`.
pub open spec fn linked_layers(level: usize, top: usize) -> nat {
    if level < top {
        level as nat + 1
    } else {
        top as nat + 1
    }
}

/// Whether `after` is `before` with row `row`, which drew `level`, added: it
/// descends from the entry through the layers above its level, and is linked into
/// each of the others from where the layer above led; layers above its level stay; layers
/// that are new have no links; and searches enter at it where it is the highest.
pub open spec fn row_added<M: VectorMath>(
    math: &M,
    metric: Metric,
    vectors: Seq<Seq<u32>>,
    config: HnswConfig,
    before: Tower,
    after: Tower,
    row: usize,
    level: usize,
) -> bool {
    &&& after.top == if level > before.top {
        level
    } else {
        before.top
    }
    &&& after.entry == if level > before.top {
        row
    } else {
        before.entry
    }
    &&& after.layers.len() == after.top + 1
    &&& forall|l: int|
        linked_layers(level, before.top) <= l <= before.top ==> #[trigger] after.layers[l]
            == before.layers[l]
    &&& forall|l: int, a: int|
        #![trigger after.layers[l][a]]
        before.top < l <= after.top && 0 <= a < vectors.len() ==> after.layers[l][a].len() == 0
    &&& row == 0 ==> forall|l: int, a: int|
        #![trigger after.layers[l][a]]
        0 <= l <= after.top && 0 <= a < vectors.len() ==> after.layers[l][a].len() == 0
    &&& row > 0 ==> exists|stops: Seq<usize>| #[trigger]
        added_at(
            math,
            metric,
            vectors,
            config,
            before,
            after,
            row,
            linked_layers(level, before.top),
            stops,
        )
}

/// Whether row `row` went down to `stops` and was linked there into the lowest
/// `count` layers.
pub open spec fn added_at<M: VectorMath>(
    math: &M,
    metric: Metric,
    vectors: Seq<Seq<u32>>,
    config: HnswConfig,
    before: Tower,
    after: Tower,
    row: usize,
    count: nat,
    stops: Seq<usize>,
) -> bool {
    let dist = |x: usize| math.distance_of(metric, vectors[x as int], vectors[row as int]);
    &&& stops.len() == before.top + 1
    &&& stops.last() == before.entry
    &&& descent(
        dist,
        before.layers,
        row as nat,
        0,
        count,
        config.ef_construction as nat,
        stops,
    )
    &&& inserted_at_stops(
        dist,
        |a: usize, b: usize| math.distance_of(metric, vectors[a as int], vectors[b as int]),
        before.layers,
        after.layers,
        row,
        stops,
        count,
        config.ef_construction as nat,
        config.max_connections as nat,
    )
}

proof fn lemma_row_added<M: VectorMath>(
    math: &M,
    metric: Metric,
    vectors: Seq<Seq<u32>>,
    config: HnswConfig,
    tower: Tower,
    row: usize,
    levels: Seq<usize>,
)
    requires
        row < vectors.len() <= usize::MAX,
        crate::hnsw::valid_config(config),
        crate::hnsw::tower_ok(tower, vectors.len(), config, levels, row as nat),
        levels[row as int] < usize::MAX,
    ensures
        row_added(
            math,
            metric,
            vectors,
            config,
            tower,
            crate::hnsw::with_row(
                math,
                metric,
                vectors,
                config,
                tower,
                row,
                levels[row as int],
            ),
            row,
            levels[row as int],
        ),
{
    let level = levels[row as int];
    let after = crate::hnsw::with_row(math, metric, vectors, config, tower, row, level);
    let layers = crate::hnsw::raised(tower.layers, vectors.len(), level);
    let count = crate::seqs::min(level as nat, tower.top as nat) + 1;
    let entry = crate::hnsw::lowered(
        math,
        metric,
        vectors,
        vectors[row as int],
        layers,
        tower.entry,
        tower.top as nat,
        level as nat,
        row,
    );
    crate::hnsw::lemma_with_row(math, metric, vectors, config, tower, row, levels);
    crate::hnsw::lemma_woven(
        math,
        metric,
        vectors,
        config,
        layers,
        row,
        entry,
        count,
        levels,
    );
    assert forall|l: int| 0 <= l <= tower.top implies #[trigger] layers[l] == tower.layers[l] by {}
    assert forall|l: int| count <= l < after.layers.len() implies #[trigger] after.layers[l]
        == layers[l] by {}
    assert forall|l: int, a: int|
        #![trigger after.layers[l][a]]
        tower.top < l <= after.top && 0 <= a < vectors.len() implies after.layers[l][a].len()
        == 0 by {
        assert(after.layers[l] == layers[l]);
        assert(layers[l] == crate::hnsw::blank(vectors.len()));
    }
    if row == 0 {
        assert forall|l: int, a: int|
            #![trigger after.layers[l][a]]
            0 <= l <= after.top && 0 <= a < vectors.len() implies after.layers[l][a].len()
            == 0 by {
            if after.layers[l][a].len() > 0 {
                let b = a as usize;
                let edges = after.layers[l];
                assert(crate::hnsw::layer_ok(
                    edges,
                    vectors.len(),
                    config,
                    levels,
                    (row + 1) as nat,
                    l,
                ));
                assert(edges[b as int].len() > 0);
                assert(crate::hnsw::belongs(levels, 1, l, b));
                let other = edges[b as int][0];
                assert(edges[b as int].contains(other));
                assert(!edges[b as int].contains(b));
                assert(edges[b as int][0] < vectors.len());
                assert(edges[b as int].contains(other) <==> edges[other as int].contains(b));
                assert(edges[other as int].len() > 0);
                assert(crate::hnsw::belongs(levels, 1, l, other));
            }
        }
    } else {
        let dist = |x: usize| math.distance_of(metric, vectors[x as int], vectors[row as int]);
        let between = |a: usize, b: usize|
            math.distance_of(metric, vectors[a as int], vectors[b as int]);
        let width = config.ef_construction as nat;
        let lower = lemma_woven_stops(
            math,
            metric,
            vectors,
            config,
            layers,
            row,
            entry,
            count,
            levels,
        );
        let stops = if level < tower.top {
            let upper = lemma_lowered_stops(
                math,
                metric,
                vectors,
                vectors[row as int],
                layers,
                tower.entry,
                tower.top as nat,
                level as nat,
                row,
                config,
                levels,
            );
            let stops = lower + upper.drop_first();
            assert(lower.len() == level + 1);
            assert forall|i: int| 0 <= i < stops.len() - 1 implies #[trigger] stop_ok(
                dist,
                layers,
                row as nat,
                0,
                count,
                width,
                stops,
                i,
            ) by {
                if i < level {
                    assert(stop_ok(dist, layers, row as nat, 0, count, width, lower, i));
                    assert(stops[i] == lower[i] && stops[i + 1] == lower[i + 1]);
                } else {
                    let j = i - level;
                    assert(stop_ok(dist, layers, row as nat, level as nat, 0, 0, upper, j));
                    assert(stops[i + 1] == upper[j + 1]);
                    if j > 0 {
                        assert(stops[i] == upper[j]);
                    } else {
                        assert(stops[i] == lower.last());
                        assert(upper[0] == entry);
                    }
                    assert(layers[level as nat + j + 1] == layers[0 + i + 1]);
                }
            }
            assert(stops.last() == upper.last());
            stops
        } else {
            assert(entry == tower.entry);
            lower
        };
        assert forall|i: int| 0 <= i < stops.len() - 1 implies #[trigger] stop_ok(
            dist,
            tower.layers,
            row as nat,
            0,
            count,
            width,
            stops,
            i,
        ) by {
            assert(stop_ok(dist, layers, row as nat, 0, count, width, stops, i));
            assert(layers[0 + i + 1] == tower.layers[0 + i + 1]);
        }
        assert forall|l: int| 0 <= l < count implies crate::graph_laws::inserted(
            dist,
            between,
            tower.layers[l],
            #[trigger] after.layers[l],
            row,
            stops[l],
            config.ef_construction as nat,
            config.max_connections as nat,
        ) by {
            assert(layers[l] == tower.layers[l]);
            assert(stops[l] == lower[l]);
        }
        assert(added_at(math, metric, vectors, config, tower, after, row, count, stops));
    }
    assert(count == linked_layers(level, tower.top));
    assert(after.layers.len() == after.top + 1);
    assert forall|l: int| count <= l <= tower.top implies #[trigger] after.layers[l]
        == tower.layers[l] by {
        assert(after.layers[l] == layers[l]);
    }
}

/// Whether `stages` lead from a single layer without links to `tower`, one row
/// added at each.
pub open spec fn grown_row_by_row<M: VectorMath>(
    math: &M,
    metric: Metric,
    vectors: Seq<Seq<u32>>,
    config: HnswConfig,
    levels: Seq<usize>,
    stages: Seq<Tower>,
    tower: Tower,
) -> bool {
    &&& stages.len() == vectors.len() + 1
    &&& stages[0].top == 0 && stages[0].entry == 0 && stages[0].layers.len() == 1
    &&& stages[0].layers[0].len() == vectors.len()
    &&& forall|a: int|
        0 <= a < vectors.len() ==> (#[trigger] stages[0].layers[0][a]).len() == 0
    &&& forall|row: usize|
        row < vectors.len() ==> row_added(
            math,
            metric,
            vectors,
            config,
            #[trigger] stages[row as int],
            stages[row + 1],
            row,
            levels[row as int],
        )
    &&& stages.last() == tower
}

/// A hierarchy is built by adding its rows in turn: each goes down from the
/// entry to a local minimum of every layer above the one it enters next, and is
/// linked in each layer up to its level to the rows nearest to it that the
/// search from there may keep. In every layer, links lead both ways between rows
/// that reach it, nearest first, within the limit.
pub proof fn building_descends_and_links_each_row<M: VectorMath>(
    math: &M,
    dataset: Dataset,
    metric: Metric,
    config: HnswConfig,
    flips: &[bool],
    index: HnswIndex,
)
    requires
        dataset.wf(),
        crate::levels::enough_flips(flips@, config.max_level, dataset@.len()),
        call_ensures(HnswIndex::try_new::<M>, (math, dataset, metric, config, flips), Ok(index)),
    ensures
        exists|stages: Seq<Tower>| #[trigger]
            grown_row_by_row(
                math,
                metric,
                dataset@,
                config,
                index.row_levels(),
                stages,
                index.tower(),
            ),
        exists|starts: Seq<int>| #[trigger]
            crate::levels::drawn_in_turn(
                flips@,
                config.max_level,
                index.row_levels(),
                starts,
            ),
        forall|l: int|
            0 <= l <= index.tower().top ==> crate::graph_laws::well_linked(
                |a: usize, b: usize|
                    math.distance_of(metric, dataset@[a as int], dataset@[b as int]),
                #[trigger] index.tower().layers[l],
                config.max_connections as nat,
            ),
        forall|l: int, a: usize|
            #![trigger index.tower().layers[l][a as int]]
            0 <= l <= index.tower().top && a < dataset@.len() && index.tower().layers[l][
                a as int
            ].len() > 0 ==> index.row_levels()[a as int] >= l,
        index.data() == dataset,
        index.measure() == metric,
        index.settings() == config,
{
    let vectors = dataset@;
    let levels = index.row_levels();
    let n = vectors.len();
    let stages = Seq::new(
        n + 1,
        |rows: int| crate::hnsw::built(math, metric, vectors, config, levels, rows as nat),
    );
    assert(flips.len() == flips@.len());
    crate::levels::lemma_levels_in_range(flips@, config.max_level, n);
    crate::levels::lemma_drawn_in_turn(flips@, config.max_level, n);
    assert forall|row: usize| row < n implies row_added(
        math,
        metric,
        vectors,
        config,
        #[trigger] stages[row as int],
        stages[row + 1],
        row,
        levels[row as int],
    ) by {
        crate::hnsw::building_keeps_the_layers_sound(
            math,
            metric,
            vectors,
            config,
            levels,
            row as nat,
        );
        lemma_row_added(math, metric, vectors, config, stages[row as int], row, levels);
    }
    assert(grown_row_by_row(math, metric, vectors, config, levels, stages, index.tower()));
    crate::hnsw::building_keeps_the_layers_sound(math, metric, vectors, config, levels, n);
    let space = crate::graph::row_space(math, metric, vectors);
    let between = |a: usize, b: usize|
        math.distance_of(metric, vectors[a as int], vectors[b as int]);
    assert forall|l: int| 0 <= l <= index.tower().top implies crate::graph_laws::well_linked(
        between,
        #[trigger] index.tower().layers[l],
        config.max_connections as nat,
    ) by {
        let edges = index.tower().layers[l];
        assert(crate::hnsw::layer_ok(edges, n, config, levels, n, l));
        assert(crate::links::nearest_first(space, edges));
        crate::graph_laws::lemma_well_linked(
            space,
            between,
            edges,
            config.max_connections as nat,
        );
    }
    assert forall|l: int, a: usize|
        #![trigger index.tower().layers[l][a as int]]
        0 <= l <= index.tower().top && a < n && index.tower().layers[l][a as int].len()
            > 0 implies levels[a as int] >= l by {
        let edges = index.tower().layers[l];
        assert(crate::hnsw::layer_ok(edges, n, config, levels, n, l));
        assert(edges[a as int].len() > 0);
    }
}

/// Whether `found` is the first `k` of what a search of layer 0 finds that keeps
/// `width` rows and enters at `stops[0]`, to which the descent through all upper
/// layers led.
pub open spec fn descended_and_searched<M: VectorMath>(
    math: &M,
    index: &HnswIndex,
    query: Seq<u32>,
    k: nat,
    width: nat,
    found: Seq<Neighbor>,
    stops: Seq<usize>,
    all: Seq<Neighbor>,
) -> bool {
    let dist = |row: usize| math.distance_of(index.measure(), index.data()@[row as int], query);
    let rows = index.data()@.len();
    &&& stops.len() == index.tower().top + 1
    &&& stops.last() == index.tower().entry
    &&& descent(dist, index.tower().layers, rows, 0, 0, 0, stops)
    &&& crate::graph_laws::searched(
        dist,
        index.tower().layers[0],
        rows,
        seq![stops[0]],
        width,
        all,
    )
    &&& crate::graph_laws::cut_to(all, k, found)
}

/// A search of a hierarchy goes down from the entry to a local minimum of every
/// upper layer in turn, layer 1 the last of them, and searches layer 0 from
/// there.
pub proof fn searching_descends_to_layer_zero<M: VectorMath>(
    math: &M,
    index: &HnswIndex,
    query: &[u32],
    k: usize,
    ef_search: usize,
    found: Vec<Neighbor>,
)
    requires
        index.wf(),
        call_ensures(
            HnswIndex::search_with_ef::<M>,
            (index, math, query, k, ef_search),
            Ok(found),
        ),
    ensures
        exists|stops: Seq<usize>, all: Seq<Neighbor>| #[trigger]
            descended_and_searched(
                math,
                index,
                query@,
                k as nat,
                crate::graph_laws::effort(ef_search, k),
                found@,
                stops,
                all,
            ),
{
    let width = crate::seqs::max(crate::seqs::max(ef_search as nat, k as nat), 1);
    let rows = index.data()@.len();
    let dist = |row: usize| math.distance_of(index.measure(), index.data()@[row as int], query@);
    let stops = lemma_lowered_stops(
        math,
        index.measure(),
        index.data()@,
        query@,
        index.tower().layers,
        index.tower().entry,
        index.tower().top as nat,
        0,
        rows as usize,
        index.settings(),
        index.row_levels(),
    );
    let entry = index.ground_entry(math, query@);
    let walk = index.walk(math, query@, crate::seqs::max(ef_search as nat, k as nat));
    assert(crate::hnsw::layer_ok(
        index.tower().layers[0],
        rows,
        index.settings(),
        index.row_levels(),
        rows,
        0,
    ));
    crate::graph_laws::lemma_searched(walk, dist, seq![entry]);
    let all = walk.search(seq![entry]);
    assert(crate::graph_laws::cut_to(all, k as nat, found@));
    assert(width == crate::graph_laws::effort(ef_search, k));
    assert(descended_and_searched(math, index, query@, k as nat, width, found@, stops, all));
}

/// A search through the common interface is one with the configured effort.
pub proof fn the_common_search_is_the_configured_one<M: VectorMath>(
    math: &M,
    index: &HnswIndex,
    query: &[u32],
    k: usize,
    result: Result<Vec<Neighbor>, VectorError>,
)
    requires
        index.wf(),
        call_ensures(<HnswIndex as VectorIndex<M>>::search, (index, math, query, k), result),
    ensures
        index.search_answer(math, query@, k, index.settings().ef_search, result),
{
}

} // verus!
