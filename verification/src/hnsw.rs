//! A hierarchical navigable small world: layers of links, sparser upwards.
//!
//! Every row is linked in layer 0, and in each layer up to a level drawn for
//! it. A search descends from the top layer greedily, then searches layer 0.

use vstd::prelude::*;

use crate::dataset::Dataset;
use crate::graph::{greedy_search, search_layer};
use crate::index::{Described, VectorIndex};
use crate::levels::draw_levels;
use crate::links::link_row;
use crate::math::VectorMath;
use crate::nsw::first_rows;
use crate::seqs::{larger, smaller};
use crate::types::{Metric, Neighbor, VectorError};

verus! {

/// How a hierarchical navigable small world is built and searched.
#[derive(Debug, Clone, Copy)]
pub struct HnswConfig {
    /// The most links that a row keeps in a layer.
    pub max_connections: usize,
    /// How many rows a search keeps while the layers are built.
    pub ef_construction: usize,
    /// How many rows a search keeps.
    pub ef_search: usize,
    /// The highest level that can be drawn for a row.
    pub max_level: usize,
    /// The seed that the levels are drawn by.
    pub seed: u64,
}

impl Default for HnswConfig {
    fn default() -> (config: Self)
        ensures
            config.max_connections == 12,
            config.ef_construction == 64,
            config.ef_search == 40,
            config.max_level == 16,
            config.seed == 0x5eed,
    {
        HnswConfig {
            max_connections: 12,
            ef_construction: 64,
            ef_search: 40,
            max_level: 16,
            seed: 0x5eed,
        }
    }
}

/// A hierarchical navigable small world over a dataset.
#[derive(Debug, Clone)]
pub struct HnswIndex {
    dataset: Dataset,
    metric: Metric,
    config: HnswConfig,
    levels: Vec<usize>,
    layers: Vec<Vec<Vec<usize>>>,
    entry_point: usize,
    top_level: usize,
}

/// Whether a configuration is accepted.
pub open spec fn valid_config(config: HnswConfig) -> bool {
    &&& config.max_level > 0
    &&& config.max_connections > 0
    &&& config.ef_construction >= config.max_connections
    &&& config.ef_search > 0
}

/// The text that says what is wrong with a configuration.
pub open spec fn config_fault(config: HnswConfig) -> Seq<char> {
    if config.max_level == 0 {
        "max_level must be greater than zero"@
    } else if config.max_connections == 0 {
        "max_connections must be greater than zero"@
    } else if config.ef_construction < config.max_connections {
        "ef_construction must be at least max_connections"@
    } else {
        "ef_search must be greater than zero"@
    }
}

/// Refuses a configuration that is out of range.
pub fn validate_config(config: &HnswConfig) -> (result: Result<(), VectorError>)
    ensures
        match result {
            Ok(()) => valid_config(*config),
            Err(VectorError::InvalidConfig(text)) => !valid_config(*config) && text@
                == config_fault(*config),
            Err(_) => false,
        },
{
    if config.max_level == 0 {
        return Err(VectorError::InvalidConfig("max_level must be greater than zero"));
    }
    if config.max_connections == 0 {
        return Err(VectorError::InvalidConfig("max_connections must be greater than zero"));
    }
    if config.ef_construction < config.max_connections {
        return Err(
            VectorError::InvalidConfig("ef_construction must be at least max_connections"),
        );
    }
    if config.ef_search == 0 {
        return Err(VectorError::InvalidConfig("ef_search must be greater than zero"));
    }
    Ok(())
}

/// The contents of a list of layers.
pub open spec fn layer_contents(layers: Seq<Vec<Vec<usize>>>) -> Seq<Seq<Seq<usize>>> {
    Seq::new(layers.len(), |l: int| crate::dataset::contents(layers[l]@))
}

/// A layer of `rows` rows without a link.
pub open spec fn blank(rows: nat) -> Seq<Seq<usize>> {
    Seq::new(rows, |i: int| Seq::empty())
}

/// `layers` with blank ones on top, so that there is a layer `level`.
pub open spec fn raised(layers: Seq<Seq<Seq<usize>>>, rows: nat, level: usize) -> Seq<
    Seq<Seq<usize>>,
> {
    Seq::new(
        crate::seqs::max(layers.len(), (level + 1) as nat),
        |l: int|
            if l < layers.len() {
                layers[l]
            } else {
                blank(rows)
            },
    )
}

/// Where greedy descents end that begin at `entry` in layer `high` and go down
/// to the layer above `low`.
pub open spec fn lowered<M: VectorMath>(
    math: &M,
    metric: Metric,
    vectors: Seq<Seq<u32>>,
    query: Seq<u32>,
    layers: Seq<Seq<Seq<usize>>>,
    entry: usize,
    high: nat,
    low: nat,
    allowed_rows: usize,
) -> usize
    decreases high,
{
    if high <= low {
        entry
    } else {
        lowered(
            math,
            metric,
            vectors,
            query,
            layers,
            crate::graph::layer_walk(
                math,
                vectors,
                metric,
                query,
                layers[high as int],
                1,
                allowed_rows,
            ).greedy(entry),
            (high - 1) as nat,
            low,
            allowed_rows,
        )
    }
}

/// The search for rows to link `row` to in the layer `edges`.
pub open spec fn building_walk<M: VectorMath>(
    math: &M,
    metric: Metric,
    vectors: Seq<Seq<u32>>,
    config: HnswConfig,
    edges: Seq<Seq<usize>>,
    row: usize,
) -> crate::graph::Walk {
    crate::graph::layer_walk(
        math,
        vectors,
        metric,
        vectors[row as int],
        edges,
        config.ef_construction,
        row,
    )
}

/// The layer `edges` with `row` linked to the nearest rows found from `entry`.
pub open spec fn woven_layer<M: VectorMath>(
    math: &M,
    metric: Metric,
    vectors: Seq<Seq<u32>>,
    config: HnswConfig,
    edges: Seq<Seq<usize>>,
    row: usize,
    entry: usize,
) -> Seq<Seq<usize>> {
    crate::links::linked(
        crate::graph::row_space(math, metric, vectors),
        edges,
        row,
        crate::ranking::first_few(
            crate::graph::rows_of(
                building_walk(math, metric, vectors, config, edges, row).search(seq![entry]),
            ),
            config.max_connections as nat,
        ),
        config.max_connections as nat,
    )
}

/// Where the search goes on one layer down: at the nearest row found.
pub open spec fn next_entry(found: Seq<Neighbor>, entry: usize) -> usize {
    if found.len() > 0 {
        found[0].row
    } else {
        entry
    }
}

/// `layers` with `row` linked into the lowest `count` of them, from the highest
/// of these down.
pub open spec fn woven<M: VectorMath>(
    math: &M,
    metric: Metric,
    vectors: Seq<Seq<u32>>,
    config: HnswConfig,
    layers: Seq<Seq<Seq<usize>>>,
    row: usize,
    entry: usize,
    count: nat,
) -> Seq<Seq<Seq<usize>>>
    decreases count,
{
    if count == 0 {
        layers
    } else {
        let level = count - 1;
        let edges = layers[level];
        woven(
            math,
            metric,
            vectors,
            config,
            layers.update(
                level,
                woven_layer(math, metric, vectors, config, edges, row, entry),
            ),
            row,
            next_entry(
                building_walk(math, metric, vectors, config, edges, row).search(seq![entry]),
                entry,
            ),
            (count - 1) as nat,
        )
    }
}

/// The layers built so far and where searches enter them.
pub struct Tower {
    /// The links of each layer.
    pub layers: Seq<Seq<Seq<usize>>>,
    /// The row that searches start from, in the top layer.
    pub entry: usize,
    /// The highest level drawn so far.
    pub top: usize,
}

/// The tower with `row`, whose level is `level`, added.
pub open spec fn with_row<M: VectorMath>(
    math: &M,
    metric: Metric,
    vectors: Seq<Seq<u32>>,
    config: HnswConfig,
    tower: Tower,
    row: usize,
    level: usize,
) -> Tower {
    let layers = raised(tower.layers, vectors.len(), level);
    let entry = lowered(
        math,
        metric,
        vectors,
        vectors[row as int],
        layers,
        tower.entry,
        tower.top as nat,
        level as nat,
        row,
    );
    Tower {
        layers: woven(
            math,
            metric,
            vectors,
            config,
            layers,
            row,
            entry,
            crate::seqs::min(level as nat, tower.top as nat) + 1,
        ),
        entry: if level > tower.top {
            row
        } else {
            tower.entry
        },
        top: crate::seqs::max(tower.top as nat, level as nat) as usize,
    }
}

/// The tower once the first `rows` rows are added in turn.
pub open spec fn built<M: VectorMath>(
    math: &M,
    metric: Metric,
    vectors: Seq<Seq<u32>>,
    config: HnswConfig,
    levels: Seq<usize>,
    rows: nat,
) -> Tower
    decreases rows,
{
    if rows == 0 {
        Tower { layers: seq![blank(vectors.len())], entry: 0, top: 0 }
    } else {
        with_row(
            math,
            metric,
            vectors,
            config,
            built(math, metric, vectors, config, levels, (rows - 1) as nat),
            (rows - 1) as usize,
            levels[rows - 1],
        )
    }
}

/// Whether `row` is one of the first `rows` rows and drew a level of `layer` or
/// more.
pub open spec fn belongs(levels: Seq<usize>, rows: nat, layer: int, row: usize) -> bool {
    row < rows && levels[row as int] >= layer
}

/// Whether every two of the rows that belong to a layer are linked in it.
pub open spec fn all_linked(
    edges: Seq<Seq<usize>>,
    levels: Seq<usize>,
    rows: nat,
    layer: int,
) -> bool {
    forall|a: usize, b: usize|
        belongs(levels, rows, layer, a) && belongs(levels, rows, layer, b) && a != b
            ==> #[trigger] edges[a as int].contains(b)
}

/// Whether a row of `total` may keep a link to every other one.
pub open spec fn roomy(config: HnswConfig, total: nat) -> bool {
    valid_config(config) && total <= config.max_connections + 1
}

/// What holds of the links in layer `layer` once `rows` rows are in: they are
/// sound and within the limit, only rows that belong there have any, and every
/// two that do are linked where the limit allows it.
pub open spec fn layer_ok(
    edges: Seq<Seq<usize>>,
    total: nat,
    config: HnswConfig,
    levels: Seq<usize>,
    rows: nat,
    layer: int,
) -> bool {
    &&& crate::links::sound(edges, total)
    &&& crate::links::sparse(edges, config.max_connections as nat)
    &&& forall|a: usize|
        a < total && (#[trigger] edges[a as int]).len() > 0 ==> belongs(levels, rows, layer, a)
    &&& roomy(config, total) ==> all_linked(edges, levels, rows, layer)
}

/// Whether the links of every row stand nearest first in every layer.
pub open spec fn layers_nearest_first(
    space: spec_fn(usize, usize) -> Neighbor,
    layers: Seq<Seq<Seq<usize>>>,
) -> bool {
    forall|l: int|
        0 <= l < layers.len() ==> crate::links::nearest_first(space, #[trigger] layers[l])
}

/// What holds of every layer once `rows` rows are in.
pub open spec fn layers_ok(
    layers: Seq<Seq<Seq<usize>>>,
    total: nat,
    config: HnswConfig,
    levels: Seq<usize>,
    rows: nat,
) -> bool {
    forall|l: int|
        0 <= l < layers.len() ==> layer_ok(#[trigger] layers[l], total, config, levels, rows, l)
}

/// What holds of a tower once `rows` rows are in: there is a layer for each
/// level up to the highest drawn, and searches enter at a row that drew it.
pub open spec fn tower_ok(
    tower: Tower,
    total: nat,
    config: HnswConfig,
    levels: Seq<usize>,
    rows: nat,
) -> bool {
    &&& tower.layers.len() == tower.top + 1
    &&& layers_ok(tower.layers, total, config, levels, rows)
    &&& forall|row: int| 0 <= row < rows ==> (#[trigger] levels[row]) <= tower.top
    &&& rows == 0 ==> tower.entry == 0 && tower.top == 0
    &&& rows > 0 ==> tower.entry < rows && levels[tower.entry as int] == tower.top
}

proof fn lemma_blank_ok(
    total: nat,
    config: HnswConfig,
    levels: Seq<usize>,
    rows: nat,
    layer: int,
)
    requires
        total <= usize::MAX,
        forall|a: usize| !(#[trigger] belongs(levels, rows, layer, a)),
    ensures
        layer_ok(blank(total), total, config, levels, rows, layer),
{
    let edges = blank(total);
    assert forall|a: usize| a < total implies (#[trigger] edges[a as int]).no_duplicates()
        && !edges[a as int].contains(a) by {
        assert(edges[a as int] == Seq::<usize>::empty());
    }
}

/// The rows that a search in a layer reaches belong to it.
pub proof fn lemma_reached_rows_belong(
    walk: crate::graph::Walk,
    entry: usize,
    row: usize,
    total: nat,
    config: HnswConfig,
    levels: Seq<usize>,
    rows: nat,
    layer: int,
)
    requires
        layer_ok(walk.edges, total, config, levels, rows, layer),
        rows <= total,
        belongs(levels, rows, layer, entry),
        crate::search_laws::reachable(walk, seq![entry], row),
    ensures
        belongs(levels, rows, layer, row),
{
    let members = Set::new(|a: usize| belongs(levels, rows, layer, a));
    assert forall|e: usize| #[trigger] seq![entry].contains(e) implies members.contains(e) by {
        assert(e == entry);
    }
    assert forall|a: usize, b: usize|
        members.contains(a) && #[trigger] walk.links(a).contains(b) implies members.contains(
        b,
    ) by {
        let i = choose|i: int| 0 <= i < walk.edges[a as int].len() && walk.edges[a as int][i] == b;
        assert(walk.edges[a as int][i] < total);
        assert(walk.edges[a as int].contains(b) <==> walk.edges[b as int].contains(a));
        assert(walk.edges[b as int].len() > 0);
    }
    crate::search_laws::lemma_reach_within(walk, seq![entry], row, members);
}

/// Linking a row into one layer that it belongs to.
pub proof fn lemma_woven_layer<M: VectorMath>(
    math: &M,
    metric: Metric,
    vectors: Seq<Seq<u32>>,
    config: HnswConfig,
    edges: Seq<Seq<usize>>,
    row: usize,
    entry: usize,
    levels: Seq<usize>,
    layer: int,
)
    requires
        row < vectors.len() <= usize::MAX,
        layer_ok(edges, vectors.len(), config, levels, row as nat, layer),
        levels[row as int] >= layer,
        row > 0 ==> belongs(levels, row as nat, layer, entry),
    ensures
        layer_ok(
            woven_layer(math, metric, vectors, config, edges, row, entry),
            vectors.len(),
            config,
            levels,
            (row + 1) as nat,
            layer,
        ),
        ({
            let walk = building_walk(math, metric, vectors, config, edges, row);
            let found = walk.search(seq![entry]);
            &&& crate::links::eligible(
                crate::ranking::first_few(
                    crate::graph::rows_of(found),
                    config.max_connections as nat,
                ),
                row,
                vectors.len(),
            )
            &&& edges[row as int].len() == 0
            &&& row > 0 ==> belongs(levels, row as nat, layer, next_entry(found, entry))
        }),
        ({
            let space = crate::graph::row_space(math, metric, vectors);
            crate::links::nearest_first(space, edges) ==> crate::links::nearest_first(
                space,
                woven_layer(math, metric, vectors, config, edges, row, entry),
            )
        }),
{
    let walk = building_walk(math, metric, vectors, config, edges, row);
    let found = walk.search(seq![entry]);
    let most = config.max_connections as nat;
    let selected = crate::ranking::first_few(crate::graph::rows_of(found), most);
    let space = crate::graph::row_space(math, metric, vectors);
    crate::nsw::lemma_found_rows_are_eligible(walk, seq![entry], row, vectors.len(), most);
    crate::search_laws::search_finds_true_neighbors(walk, seq![entry]);
    crate::search_laws::search_stays_reachable(walk, seq![entry]);
    assert(edges[row as int].len() == 0);
    crate::links::linking_keeps_the_graph_sound(space, edges, row, selected, most);
    assert forall|i: int| 0 <= i < found.len() implies belongs(
        levels,
        row as nat,
        layer,
        (#[trigger] found[i]).row,
    ) by {
        assert(found.contains(found[i]));
        lemma_reached_rows_belong(
            walk,
            entry,
            found[i].row,
            vectors.len(),
            config,
            levels,
            row as nat,
            layer,
        );
    }
    let after = woven_layer(math, metric, vectors, config, edges, row, entry);
    assert forall|a: usize|
        a < vectors.len() && (#[trigger] after[a as int]).len() > 0 implies belongs(
        levels,
        (row + 1) as nat,
        layer,
        a,
    ) by {
        let b = after[a as int][0];
        assert(after[a as int].contains(b));
        if edges[a as int].contains(b) {
            assert(edges[a as int].len() > 0);
        } else if a != row {
            let i = choose|i: int| 0 <= i < selected.len() && selected[i] == a;
            assert(found[i].row == a);
        }
    }
    if roomy(config, vectors.len()) {
        let members = Set::new(|a: usize| belongs(levels, row as nat, layer, a));
        if row > 0 {
            assert forall|a: usize, b: usize|
                members.contains(a) && members.contains(b) && a != b implies #[trigger] walk.links(
                a,
            ).contains(b) by {
                assert(edges[a as int].contains(b));
            }
            crate::search_laws::lemma_members_are_found(walk, entry, members, most);
        }
        assert forall|a: usize, b: usize|
            belongs(levels, (row + 1) as nat, layer, a) && belongs(
                levels,
                (row + 1) as nat,
                layer,
                b,
            ) && a != b implies #[trigger] after[a as int].contains(b) by {
            if a == row {
                assert(members.contains(b));
            } else if b == row {
                assert(members.contains(a));
            } else {
                assert(edges[a as int].contains(b));
            }
        }
    }
}

/// Linking a row into the lowest `count` layers: these hold for one row more,
/// the others stay as they are.
pub proof fn lemma_woven<M: VectorMath>(
    math: &M,
    metric: Metric,
    vectors: Seq<Seq<u32>>,
    config: HnswConfig,
    layers: Seq<Seq<Seq<usize>>>,
    row: usize,
    entry: usize,
    count: nat,
    levels: Seq<usize>,
)
    requires
        row < vectors.len() <= usize::MAX,
        count <= layers.len(),
        forall|l: int|
            0 <= l < count ==> layer_ok(
                #[trigger] layers[l],
                vectors.len(),
                config,
                levels,
                row as nat,
                l,
            ),
        levels[row as int] + 1 >= count,
        count > 0 && row > 0 ==> belongs(levels, row as nat, count - 1, entry),
    ensures
        ({
            let after = woven(math, metric, vectors, config, layers, row, entry, count);
            &&& after.len() == layers.len()
            &&& forall|l: int|
                0 <= l < count ==> layer_ok(
                    #[trigger] after[l],
                    vectors.len(),
                    config,
                    levels,
                    (row + 1) as nat,
                    l,
                )
            &&& forall|l: int| count <= l < layers.len() ==> #[trigger] after[l] == layers[l]
            &&& layers_nearest_first(crate::graph::row_space(math, metric, vectors), layers)
                ==> layers_nearest_first(crate::graph::row_space(math, metric, vectors), after)
        }),
    decreases count,
{
    if count > 0 {
        let level = count - 1;
        let edges = layers[level];
        lemma_woven_layer(
            math,
            metric,
            vectors,
            config,
            edges,
            row,
            entry,
            levels,
            level,
        );
        let woven_edges = woven_layer(math, metric, vectors, config, edges, row, entry);
        let found = building_walk(math, metric, vectors, config, edges, row).search(seq![entry]);
        let next = next_entry(found, entry);
        let updated = layers.update(level, woven_edges);
        let space = crate::graph::row_space(math, metric, vectors);
        if layers_nearest_first(space, layers) {
            assert(crate::links::nearest_first(space, layers[level]));
            assert forall|l: int| 0 <= l < updated.len() implies crate::links::nearest_first(
                space,
                #[trigger] updated[l],
            ) by {
                if l != level {
                    assert(updated[l] == layers[l]);
                }
            }
        }
        lemma_woven(
            math,
            metric,
            vectors,
            config,
            updated,
            row,
            next,
            (count - 1) as nat,
            levels,
        );
        let after = woven(math, metric, vectors, config, layers, row, entry, count);
        assert(after == woven(
            math,
            metric,
            vectors,
            config,
            updated,
            row,
            next,
            (count - 1) as nat,
        ));
        assert forall|l: int| 0 <= l < count implies layer_ok(
            #[trigger] after[l],
            vectors.len(),
            config,
            levels,
            (row + 1) as nat,
            l,
        ) by {
            if l == level {
                assert(after[l] == updated[l]);
            }
        }
        assert forall|l: int| count <= l < layers.len() implies #[trigger] after[l]
            == layers[l] by {
            assert(after[l] == updated[l]);
        }
    }
}

/// Descending through layers ends at a row that belongs to the lowest of them.
pub proof fn lemma_lowered<M: VectorMath>(
    math: &M,
    metric: Metric,
    vectors: Seq<Seq<u32>>,
    query: Seq<u32>,
    layers: Seq<Seq<Seq<usize>>>,
    entry: usize,
    high: nat,
    low: nat,
    allowed_rows: usize,
    config: HnswConfig,
    levels: Seq<usize>,
)
    requires
        high < layers.len(),
        layers_ok(layers, vectors.len(), config, levels, allowed_rows as nat),
        allowed_rows <= vectors.len(),
        belongs(levels, allowed_rows as nat, high as int, entry),
    ensures
        belongs(
            levels,
            allowed_rows as nat,
            if high <= low {
                high as int
            } else {
                low as int + 1
            },
            lowered(math, metric, vectors, query, layers, entry, high, low, allowed_rows),
        ),
    decreases high,
{
    if high > low {
        let edges = layers[high as int];
        assert(layer_ok(
            edges,
            vectors.len(),
            config,
            levels,
            allowed_rows as nat,
            high as int,
        ));
        let walk = crate::graph::layer_walk(
            math,
            vectors,
            metric,
            query,
            edges,
            1,
            allowed_rows,
        );
        crate::search_laws::descent_ends_at_a_local_minimum(walk, entry);
        lemma_reached_rows_belong(
            walk,
            entry,
            walk.greedy(entry),
            vectors.len(),
            config,
            levels,
            allowed_rows as nat,
            high as int,
        );
        if high - 1 <= low {
            assert(lowered(
                math,
                metric,
                vectors,
                query,
                layers,
                walk.greedy(entry),
                (high - 1) as nat,
                low,
                allowed_rows,
            ) == walk.greedy(entry));
        } else {
            lemma_lowered(
                math,
                metric,
                vectors,
                query,
                layers,
                walk.greedy(entry),
                (high - 1) as nat,
                low,
                allowed_rows,
                config,
                levels,
            );
        }
    }
}

/// What one row is added to, and what comes of it.
pub proof fn lemma_with_row<M: VectorMath>(
    math: &M,
    metric: Metric,
    vectors: Seq<Seq<u32>>,
    config: HnswConfig,
    tower: Tower,
    row: usize,
    levels: Seq<usize>,
)
    requires
        row < vectors.len() <= usize::MAX,
        tower_ok(tower, vectors.len(), config, levels, row as nat),
        levels[row as int] < usize::MAX,
    ensures
        tower_ok(
            with_row(math, metric, vectors, config, tower, row, levels[row as int]),
            vectors.len(),
            config,
            levels,
            (row + 1) as nat,
        ),
        ({
            let level = levels[row as int];
            let layers = raised(tower.layers, vectors.len(), level);
            let count = crate::seqs::min(level as nat, tower.top as nat) + 1;
            let entry = lowered(
                math,
                metric,
                vectors,
                vectors[row as int],
                layers,
                tower.entry,
                tower.top as nat,
                level as nat,
                row,
            );
            &&& layers_ok(layers, vectors.len(), config, levels, row as nat)
            &&& count <= layers.len()
            &&& row > 0 ==> belongs(levels, row as nat, count - 1, entry)
        }),
        ({
            let space = crate::graph::row_space(math, metric, vectors);
            layers_nearest_first(space, tower.layers) ==> layers_nearest_first(
                space,
                with_row(math, metric, vectors, config, tower, row, levels[row as int]).layers,
            )
        }),
{
    let level = levels[row as int];
    let layers = raised(tower.layers, vectors.len(), level);
    let count = crate::seqs::min(level as nat, tower.top as nat) + 1;
    assert forall|l: int| 0 <= l < layers.len() implies layer_ok(
        #[trigger] layers[l],
        vectors.len(),
        config,
        levels,
        row as nat,
        l,
    ) by {
        if l < tower.layers.len() {
            assert(layers[l] == tower.layers[l]);
        } else {
            assert forall|a: usize| !(#[trigger] belongs(levels, row as nat, l, a)) by {
                if a < row {
                    assert(levels[a as int] <= tower.top);
                }
            }
            lemma_blank_ok(vectors.len(), config, levels, row as nat, l);
        }
    }
    let space = crate::graph::row_space(math, metric, vectors);
    if layers_nearest_first(space, tower.layers) {
        assert forall|l: int| 0 <= l < layers.len() implies crate::links::nearest_first(
            space,
            #[trigger] layers[l],
        ) by {
            if l < tower.layers.len() {
                assert(layers[l] == tower.layers[l]);
            } else {
                assert forall|a: usize|
                    a < layers[l].len() implies crate::graph::strictly_nearer(
                    space,
                    a,
                    #[trigger] layers[l][a as int],
                ) by {
                    assert(layers[l][a as int].len() == 0);
                }
            }
        }
    }
    let entry = lowered(
        math,
        metric,
        vectors,
        vectors[row as int],
        layers,
        tower.entry,
        tower.top as nat,
        level as nat,
        row,
    );
    if row > 0 {
        lemma_lowered(
            math,
            metric,
            vectors,
            vectors[row as int],
            layers,
            tower.entry,
            tower.top as nat,
            level as nat,
            row,
            config,
            levels,
        );
    }
    lemma_woven(math, metric, vectors, config, layers, row, entry, count, levels);
    let after = with_row(math, metric, vectors, config, tower, row, level);
    assert forall|l: int| 0 <= l < after.layers.len() implies layer_ok(
        #[trigger] after.layers[l],
        vectors.len(),
        config,
        levels,
        (row + 1) as nat,
        l,
    ) by {
        if l >= count {
            assert(after.layers[l] == layers[l]);
            let edges = layers[l];
            assert forall|a: usize|
                a < vectors.len() && (#[trigger] edges[a as int]).len() > 0 implies belongs(
                levels,
                (row + 1) as nat,
                l,
                a,
            ) by {
                assert(belongs(levels, row as nat, l, a));
            }
            if roomy(config, vectors.len()) {
                assert forall|a: usize, b: usize|
                    belongs(levels, (row + 1) as nat, l, a) && belongs(
                        levels,
                        (row + 1) as nat,
                        l,
                        b,
                    ) && a != b implies #[trigger] edges[a as int].contains(b) by {
                    if a < row {
                        assert(levels[a as int] <= tower.top);
                    }
                    if b < row {
                        assert(levels[b as int] <= tower.top);
                    }
                    assert(belongs(levels, row as nat, l, a) && belongs(
                        levels,
                        row as nat,
                        l,
                        b,
                    ));
                }
            }
        }
    }
}

/// However the distances and the levels fall, what is built holds: each layer
/// is sound and within its limit, links only rows that belong to it, and all of
/// these where the limit allows it; the links of every row stand nearest first;
/// and there is a layer for each level up to the highest drawn, where searches
/// enter.
pub proof fn building_keeps_the_layers_sound<M: VectorMath>(
    math: &M,
    metric: Metric,
    vectors: Seq<Seq<u32>>,
    config: HnswConfig,
    levels: Seq<usize>,
    rows: nat,
)
    requires
        rows <= vectors.len() <= usize::MAX,
        forall|row: int| 0 <= row < rows ==> (#[trigger] levels[row]) < usize::MAX,
    ensures
        tower_ok(
            built(math, metric, vectors, config, levels, rows),
            vectors.len(),
            config,
            levels,
            rows,
        ),
        layers_nearest_first(
            crate::graph::row_space(math, metric, vectors),
            built(math, metric, vectors, config, levels, rows).layers,
        ),
    decreases rows,
{
    if rows == 0 {
        lemma_blank_ok(vectors.len(), config, levels, rows, 0);
        let space = crate::graph::row_space(math, metric, vectors);
        let edges = blank(vectors.len());
        assert forall|a: usize| a < edges.len() implies crate::graph::strictly_nearer(
            space,
            a,
            #[trigger] edges[a as int],
        ) by {
            assert(edges[a as int].len() == 0);
        }
        assert(crate::links::nearest_first(space, edges));
    } else {
        building_keeps_the_layers_sound(
            math,
            metric,
            vectors,
            config,
            levels,
            (rows - 1) as nat,
        );
        lemma_with_row(
            math,
            metric,
            vectors,
            config,
            built(math, metric, vectors, config, levels, (rows - 1) as nat),
            (rows - 1) as usize,
            levels,
        );
    }
}

/// Descends from `entry` in layer `high` greedily, layer by layer, down to the
/// layer above `low`.
fn descend_layers<M: VectorMath>(
    math: &M,
    dataset: &Dataset,
    metric: Metric,
    query: &[u32],
    layers: &Vec<Vec<Vec<usize>>>,
    entry: usize,
    high: usize,
    low: usize,
    allowed_rows: usize,
) -> (reached: usize)
    requires
        crate::math::lawful(math),
        high < layers@.len(),
    ensures
        reached == lowered(
            math,
            metric,
            dataset@,
            query@,
            layer_contents(layers@),
            entry,
            high as nat,
            low as nat,
            allowed_rows,
        ),
{
    let ghost tiers = layer_contents(layers@);
    let mut reached: usize = entry;
    let mut level: usize = high;
    while level > low
        invariant
            crate::math::lawful(math),
            level <= high < layers@.len(),
            tiers == layer_contents(layers@),
            lowered(
                math,
                metric,
                dataset@,
                query@,
                tiers,
                entry,
                high as nat,
                low as nat,
                allowed_rows,
            ) == lowered(
                math,
                metric,
                dataset@,
                query@,
                tiers,
                reached,
                level as nat,
                low as nat,
                allowed_rows,
            ),
        decreases level,
    {
        reached = greedy_search(
            math,
            dataset,
            metric,
            query,
            layers[level].as_slice(),
            reached,
            allowed_rows,
        );
        level -= 1;
    }
    reached
}

/// Links `row` into the lowest `count` layers, from the highest of these down,
/// each time starting from the nearest row found one layer up.
fn weave<M: VectorMath>(
    math: &M,
    dataset: &Dataset,
    metric: Metric,
    config: &HnswConfig,
    layers: &mut Vec<Vec<Vec<usize>>>,
    row: usize,
    entry: usize,
    count: usize,
    levels: &Vec<usize>,
)
    requires
        crate::math::lawful(math),
        dataset.wf(),
        row < dataset@.len(),
        row < levels@.len(),
        count <= old(layers)@.len(),
        forall|l: int|
            0 <= l < count ==> layer_ok(
                #[trigger] layer_contents(old(layers)@)[l],
                dataset@.len(),
                *config,
                levels@,
                row as nat,
                l,
            ),
        levels@[row as int] + 1 >= count,
        count > 0 && row > 0 ==> belongs(levels@, row as nat, count - 1, entry),
    ensures
        layer_contents(final(layers)@) == woven(
            math,
            metric,
            dataset@,
            *config,
            layer_contents(old(layers)@),
            row,
            entry,
            count as nat,
        ),
{
    let ghost start = layer_contents(layers@);
    let mut at: usize = entry;
    let mut left: usize = count;
    while left > 0
        invariant
            crate::math::lawful(math),
            dataset.wf(),
            row < dataset@.len(),
            row < levels@.len(),
            left <= count <= layers@.len(),
            forall|l: int|
                0 <= l < left ==> layer_ok(
                    #[trigger] layer_contents(layers@)[l],
                    dataset@.len(),
                    *config,
                    levels@,
                    row as nat,
                    l,
                ),
            levels@[row as int] + 1 >= left,
            left > 0 && row > 0 ==> belongs(levels@, row as nat, left - 1, at),
            woven(math, metric, dataset@, *config, start, row, entry, count as nat) == woven(
                math,
                metric,
                dataset@,
                *config,
                layer_contents(layers@),
                row,
                at,
                left as nat,
            ),
        decreases left,
    {
        let level: usize = left - 1;
        let ghost tiers = layer_contents(layers@);
        let ghost edges = tiers[level as int];
        let entries: [usize; 1] = [at];
        assert(entries@ =~= seq![at]);
        let found = search_layer(
            math,
            dataset,
            metric,
            dataset.vector(row),
            layers[level].as_slice(),
            entries.as_slice(),
            config.ef_construction,
            row,
        );
        proof {
            assert(layer_ok(
                tiers[level as int],
                dataset@.len(),
                *config,
                levels@,
                row as nat,
                level as int,
            ));
            lemma_woven_layer(
                math,
                metric,
                dataset@,
                *config,
                edges,
                row,
                at,
                levels@,
                level as int,
            );
        }
        let selected = first_rows(&found, config.max_connections);
        assert(layers@[level as int]@[row as int]@ == edges[row as int]);
        link_row(
            math,
            dataset,
            metric,
            &mut layers[level],
            row,
            selected,
            config.max_connections,
        );
        assert(layer_contents(layers@) =~= tiers.update(
            level as int,
            woven_layer(math, metric, dataset@, *config, edges, row, at),
        ));
        if found.len() > 0 {
            at = found[0].row;
        }
        left -= 1;
    }
}

/// Adds blank layers until there is a layer `level`.
fn raise(layers: &mut Vec<Vec<Vec<usize>>>, rows: usize, level: usize)
    requires
        level < usize::MAX,
    ensures
        layer_contents(final(layers)@) == raised(layer_contents(old(layers)@), rows as nat, level),
{
    let ghost start = layer_contents(layers@);
    while layers.len() <= level
        invariant
            level < usize::MAX,
            start.len() <= layers@.len(),
            layers@.len() <= crate::seqs::max(start.len(), (level + 1) as nat),
            forall|l: int|
                0 <= l < layers@.len() ==> #[trigger] layer_contents(layers@)[l] == (if l
                    < start.len() {
                    start[l]
                } else {
                    blank(rows as nat)
                }),
        decreases level + 1 - layers@.len(),
    {
        let ghost before = layers@;
        let mut layer: Vec<Vec<usize>> = Vec::new();
        for i in 0..rows
            invariant
                layer@.len() == i,
                forall|j: int| 0 <= j < i ==> (#[trigger] layer@[j])@.len() == 0,
        {
            layer.push(Vec::new());
        }
        assert(crate::dataset::contents(layer@) =~~= blank(rows as nat));
        layers.push(layer);
        assert forall|l: int| 0 <= l < layers@.len() implies #[trigger] layer_contents(layers@)[l]
            == (if l < start.len() {
            start[l]
        } else {
            blank(rows as nat)
        }) by {
            if l < before.len() {
                assert(layer_contents(layers@)[l] == layer_contents(before)[l]);
            }
        }
    }
    assert(layer_contents(layers@) =~= raised(start, rows as nat, level));
}

impl HnswIndex {
    /// The vectors that the index was built over.
    pub closed spec fn data(&self) -> Dataset {
        self.dataset
    }

    /// How distances are measured.
    pub closed spec fn measure(&self) -> Metric {
        self.metric
    }

    /// How the index was configured.
    pub closed spec fn settings(&self) -> HnswConfig {
        self.config
    }

    /// The level of each row.
    pub closed spec fn row_levels(&self) -> Seq<usize> {
        self.levels@
    }

    /// The layers and where searches enter them.
    pub closed spec fn tower(&self) -> Tower {
        Tower {
            layers: layer_contents(self.layers@),
            entry: self.entry_point,
            top: self.top_level,
        }
    }

    /// Sound layers over the dataset, within the limits of a valid
    /// configuration.
    pub open spec fn wf(&self) -> bool {
        &&& self.data().wf()
        &&& valid_config(self.settings())
        &&& self.row_levels().len() == self.data()@.len()
        &&& tower_ok(
            self.tower(),
            self.data()@.len(),
            self.settings(),
            self.row_levels(),
            self.data()@.len(),
        )
    }

    /// Whether the rows drew their levels with `flips`.
    pub open spec fn drawn_with(&self, flips: Seq<bool>) -> bool {
        &&& crate::levels::enough_flips(flips, self.settings().max_level, self.data()@.len())
        &&& self.row_levels() == crate::levels::levels_drawn(
            flips,
            self.settings().max_level,
            self.data()@.len(),
        )
    }

    /// Builds the layers row by row. The rows draw their levels with `flips` (see
    /// [`crate::levels`]).
    pub fn try_new<M: VectorMath>(
        math: &M,
        dataset: Dataset,
        metric: Metric,
        config: HnswConfig,
        flips: &[bool],
    ) -> (result: Result<Self, VectorError>)
        requires
            crate::math::lawful(math),
            dataset.wf(),
            crate::dataset::fits_metric(dataset@, metric) && valid_config(config)
                ==> crate::levels::enough_flips(flips@, config.max_level, dataset@.len()),
        ensures
            match result {
                Ok(index) => {
                    &&& crate::dataset::fits_metric(dataset@, metric)
                    &&& valid_config(config)
                    &&& index.wf()
                    &&& index.data() == dataset
                    &&& index.measure() == metric
                    &&& index.settings() == config
                    &&& index.drawn_with(flips@)
                    &&& index.tower() == built(
                        math,
                        metric,
                        dataset@,
                        config,
                        index.row_levels(),
                        dataset@.len(),
                    )
                    &&& layers_nearest_first(
                        crate::graph::row_space(math, metric, dataset@),
                        index.tower().layers,
                    )
                },
                Err(error) => if !crate::dataset::fits_metric(dataset@, metric) {
                    error == (VectorError::ZeroNorm { vector: 0 })
                } else {
                    &&& !valid_config(config)
                    &&& error matches VectorError::InvalidConfig(text) && text@ == config_fault(
                        config,
                    )
                },
            },
    {
        if let Err(error) = dataset.validate_for_metric(metric) {
            return Err(error);
        }
        if let Err(error) = validate_config(&config) {
            return Err(error);
        }
        let rows: usize = dataset.len();
        let levels = draw_levels(flips, config.max_level, rows);
        let mut layers: Vec<Vec<Vec<usize>>> = Vec::new();
        raise(&mut layers, rows, 0);
        let mut top_level: usize = 0;
        let mut entry_point: usize = 0;
        assert(layer_contents(layers@) =~= seq![blank(dataset@.len())]);
        for row in 0..rows
            invariant
                crate::math::lawful(math),
                dataset.wf(),
                rows == dataset@.len(),
                levels@.len() == dataset@.len(),
                forall|r: int| 0 <= r < levels@.len() ==> (#[trigger] levels@[r]) < usize::MAX,
                (Tower { layers: layer_contents(layers@), entry: entry_point, top: top_level })
                    == built(math, metric, dataset@, config, levels@, row as nat),
        {
            let target_level: usize = levels[row];
            let ghost tower = built(math, metric, dataset@, config, levels@, row as nat);
            proof {
                building_keeps_the_layers_sound(
                    math,
                    metric,
                    dataset@,
                    config,
                    levels@,
                    row as nat,
                );
                lemma_with_row(math, metric, dataset@, config, tower, row, levels@);
            }
            raise(&mut layers, rows, target_level);
            let vector = dataset.vector(row);
            let entry: usize = descend_layers(
                math,
                &dataset,
                metric,
                vector,
                &layers,
                entry_point,
                top_level,
                target_level,
                row,
            );
            let count: usize = smaller(target_level, top_level) + 1;
            weave(
                math,
                &dataset,
                metric,
                &config,
                &mut layers,
                row,
                entry,
                count,
                &levels,
            );
            if target_level > top_level {
                entry_point = row;
            }
            top_level = larger(top_level, target_level);
        }
        proof {
            building_keeps_the_layers_sound(
                math,
                metric,
                dataset@,
                config,
                levels@,
                dataset@.len(),
            );
        }
        Ok(HnswIndex { dataset, metric, config, levels, layers, entry_point, top_level })
    }

    /// The level of each row.
    pub fn levels(&self) -> (levels: &[usize])
        ensures
            levels@ == self.row_levels(),
    {
        self.levels.as_slice()
    }

    /// The highest level of a row.
    pub fn top_level(&self) -> (level: usize)
        ensures
            level == self.tower().top,
    {
        self.top_level
    }

    /// The row that a search for `query` reaches in layer 0.
    pub open spec fn ground_entry<M: VectorMath>(&self, math: &M, query: Seq<u32>) -> usize {
        lowered(
            math,
            self.measure(),
            self.data()@,
            query,
            self.tower().layers,
            self.tower().entry,
            self.tower().top as nat,
            0,
            self.data()@.len() as usize,
        )
    }

    /// The search of layer 0 that [`HnswIndex::search_with_ef`] makes.
    pub open spec fn walk<M: VectorMath>(&self, math: &M, query: Seq<u32>, ef: nat) ->
        crate::graph::Walk {
        crate::graph::layer_walk(
            math,
            self.data()@,
            self.measure(),
            query,
            self.tower().layers[0],
            ef as usize,
            self.data()@.len() as usize,
        )
    }

    /// What [`HnswIndex::search_with_ef`] answers: a fault of the query, else the
    /// first `k` rows that the search finds, each with its true distance, at
    /// least one of them where `k` is not zero.
    pub open spec fn search_answer<M: VectorMath>(
        &self,
        math: &M,
        query: Seq<u32>,
        k: usize,
        ef_search: usize,
        result: Result<Vec<Neighbor>, VectorError>,
    ) -> bool {
        let dimension = self.data().width() as int;
        let walk = self.walk(math, query, crate::seqs::max(ef_search as nat, k as nat));
        match result {
            Ok(found) => {
                &&& crate::dataset::query_fits(dimension, query, self.measure())
                &&& found@ == crate::ranking::first_few(
                    walk.search(seq![self.ground_entry(math, query)]),
                    k as nat,
                )
                &&& found@.len() <= k
                &&& k > 0 ==> found@.len() > 0
                &&& crate::search_laws::true_neighbors(walk, found@)
            },
            Err(error) => {
                &&& !crate::dataset::query_fits(dimension, query, self.measure())
                &&& crate::dataset::query_verdict(
                    dimension,
                    query,
                    self.measure(),
                    Err::<(), VectorError>(error),
                )
            },
        }
    }

    /// The `k` nearest rows that a search finds which keeps `ef_search` rows, or
    /// `k` where that is more.
    pub fn search_with_ef<M: VectorMath>(
        &self,
        math: &M,
        query: &[u32],
        k: usize,
        ef_search: usize,
    ) -> (result: Result<Vec<Neighbor>, VectorError>)
        requires
            crate::math::lawful(math),
            self.wf(),
        ensures
            self.search_answer(math, query@, k, ef_search, result),
    {
        if let Err(error) = self.dataset.validate_query(query, self.metric) {
            return Err(error);
        }
        let entry: usize = descend_layers(
            math,
            &self.dataset,
            self.metric,
            query,
            &self.layers,
            self.entry_point,
            self.top_level,
            0,
            self.dataset.len(),
        );
        let entries: [usize; 1] = [entry];
        assert(entries@ =~= seq![entry]);
        let found = search_layer(
            math,
            &self.dataset,
            self.metric,
            query,
            self.layers[0].as_slice(),
            entries.as_slice(),
            larger(ef_search, k),
            self.dataset.len(),
        );
        let ghost walk = self.walk(math, query@, crate::seqs::max(ef_search as nat, k as nat));
        let ghost all = found@;
        proof {
            assert(crate::dataset::contents(self.layers@[0]@) == self.tower().layers[0]);
            lemma_lowered(
                math,
                self.metric,
                self.dataset@,
                query@,
                self.tower().layers,
                self.entry_point,
                self.top_level as nat,
                0,
                self.dataset@.len() as usize,
                self.config,
                self.levels@,
            );
            crate::search_laws::search_finds_true_neighbors(walk, seq![entry]);
            crate::ranking::lemma_first_few(all, k as nat);
            assert(layer_ok(
                self.tower().layers[0],
                self.dataset@.len(),
                self.config,
                self.levels@,
                self.dataset@.len(),
                0,
            ));
            assert(seq![entry].contains(entry)) by {
                assert(seq![entry][0] == entry);
            }
        }
        let mut found = found;
        if k < found.len() {
            found.truncate(k);
            assert(found@ =~= all.take(k as int));
        }
        Ok(found)
    }

    /// The rows that each row is linked to in layer `level`.
    pub fn layer(&self, level: usize) -> (layer: Option<&[Vec<usize>]>)
        ensures
            match layer {
                Some(layer) => level < self.tower().layers.len() && crate::dataset::contents(layer@)
                    == self.tower().layers[level as int],
                None => level >= self.tower().layers.len(),
            },
    {
        if level < self.layers.len() {
            Some(self.layers[level].as_slice())
        } else {
            None
        }
    }
}

/// Whether `flips` are the first that a generator with this seed tosses; `coin`
/// says what a seed gives at each toss.
pub open spec fn tossed(coin: spec_fn(u64, int) -> bool, seed: u64, flips: Seq<bool>) -> bool {
    forall|i: int| 0 <= i < flips.len() ==> #[trigger] flips[i] == coin(seed, i)
}

/// The levels of a hierarchy depend on the seed, the highest level and the
/// number of the row alone: whatever else differs between two of them, the rows
/// of the smaller one have the levels of the first rows of the larger one.
pub proof fn levels_depend_on_seed_and_row(
    coin: spec_fn(u64, int) -> bool,
    few: &HnswIndex,
    few_flips: Seq<bool>,
    more: &HnswIndex,
    more_flips: Seq<bool>,
)
    requires
        few.settings().seed == more.settings().seed,
        few.settings().max_level == more.settings().max_level,
        few.data()@.len() <= more.data()@.len(),
        tossed(coin, few.settings().seed, few_flips),
        tossed(coin, more.settings().seed, more_flips),
        few.drawn_with(few_flips),
        more.drawn_with(more_flips),
    ensures
        few.row_levels() == more.row_levels().take(few.data()@.len() as int),
{
    assert forall|i: int|
        0 <= i < few_flips.len() && 0 <= i < more_flips.len() implies #[trigger] few_flips[i]
        == more_flips[i] by {
        assert(more_flips[i] == coin(more.settings().seed, i));
    }
    crate::levels::fewer_rows_draw_the_same_levels(
        few_flips,
        more_flips,
        few.settings().max_level,
        few.data()@.len(),
        more.data()@.len(),
    );
}

/// A hierarchy over no more rows than a row may keep links, and one, is
/// complete: in each layer, a row that belongs to it is linked to exactly the
/// others that do.
pub proof fn few_rows_are_all_linked(index: &HnswIndex, layer: int, a: usize, b: usize)
    requires
        index.wf(),
        index.data()@.len() <= index.settings().max_connections + 1,
        0 <= layer <= index.tower().top,
        a < index.data()@.len(),
        b < index.data()@.len(),
    ensures
        index.tower().layers[layer][a as int].contains(b) <==> a != b && index.row_levels()[
            a as int
        ] >= layer && index.row_levels()[b as int] >= layer,
{
    let edges = index.tower().layers[layer];
    let rows = index.data()@.len();
    let levels = index.row_levels();
    assert(layer_ok(edges, rows, index.settings(), levels, rows, layer));
    if edges[a as int].contains(b) {
        assert(!edges[a as int].contains(a));
        assert(edges[a as int].contains(b) <==> edges[b as int].contains(a));
        assert(edges[a as int].len() > 0 && edges[b as int].len() > 0);
        assert(belongs(levels, rows, layer, a) && belongs(levels, rows, layer, b));
    } else if a != b {
        assert(!(belongs(levels, rows, layer, a) && belongs(levels, rows, layer, b)));
    }
}

/// A hierarchy over no more rows than a row may keep links, and one, is searched
/// exactly, whatever `ef_search` is: the answer is the `k` nearest of all rows.
pub proof fn few_rows_are_searched_exactly<M: VectorMath>(
    math: &M,
    index: &HnswIndex,
    query: Seq<u32>,
    k: usize,
    ef_search: usize,
)
    requires
        index.wf(),
        index.data()@.len() <= index.settings().max_connections + 1,
    ensures
        crate::ranking::first_few(
            index.walk(
                math,
                query,
                crate::seqs::max(ef_search as nat, k as nat),
            ).search(seq![index.ground_entry(math, query)]),
            k as nat,
        ) == crate::ranking::smallest(
            crate::ivf::as_neighbors(
                crate::graph::near_query(math, index.measure(), index.data()@, query),
                crate::shuffle::identity(index.data()@.len()),
            ),
            k as nat,
        ),
{
    let walk = index.walk(math, query, crate::seqs::max(ef_search as nat, k as nat));
    let entry = index.ground_entry(math, query);
    let rows = index.data()@.len();
    lemma_lowered(
        math,
        index.measure(),
        index.data()@,
        query,
        index.tower().layers,
        index.tower().entry,
        index.tower().top as nat,
        0,
        rows as usize,
        index.settings(),
        index.row_levels(),
    );
    let ground = index.tower().layers[0];
    assert(layer_ok(ground, rows, index.settings(), index.row_levels(), rows, 0));
    assert forall|a: usize, b: usize|
        a < walk.limit && b < walk.limit && a != b implies #[trigger] walk.links(a).contains(
        b,
    ) by {
        few_rows_are_all_linked(index, 0, a, b);
    }
    assert(seq![entry][0] == entry);
    crate::search_laws::complete_search_is_exact(walk, seq![entry], k as nat, entry);
}

impl Described for HnswIndex {
    open spec fn ready(&self) -> bool {
        self.wf()
    }

    open spec fn kind_name(&self) -> Seq<char> {
        "hnsw"@
    }

    open spec fn indexed(&self) -> Dataset {
        self.data()
    }

    open spec fn measured_by(&self) -> Metric {
        self.measure()
    }

    fn kind(&self) -> (kind: &'static str) {
        "hnsw"
    }

    fn dataset(&self) -> (dataset: &Dataset) {
        &self.dataset
    }

    fn metric(&self) -> (metric: Metric) {
        self.metric
    }
}

impl<M: VectorMath> VectorIndex<M> for HnswIndex {
    open spec fn answers(
        &self,
        math: &M,
        query: Seq<u32>,
        k: usize,
        result: Result<Vec<Neighbor>, VectorError>,
    ) -> bool {
        self.search_answer(math, query, k, self.settings().ef_search, result)
    }

    /// Searches with the configured `ef_search`.
    fn search(&self, math: &M, query: &[u32], k: usize) -> (result: Result<
        Vec<Neighbor>,
        VectorError,
    >)
    {
        self.search_with_ef(math, query, k, self.config.ef_search)
    }
}

} // verus!
