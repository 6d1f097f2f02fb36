//! Searching and pruning proximity graphs.
//!
//! A graph holds for every row the rows that it is linked to. A search walks
//! from its entry points to linked rows, nearest first, and keeps the nearest
//! rows that it has met.

use std::collections::HashSet;

use vstd::prelude::*;

use crate::dataset::Dataset;
use crate::math::VectorMath;
use crate::ranking::{MinQueue, Ranked, TopK, sort};
use crate::seqs::{larger, retain_others, smaller};
use crate::types::{Metric, Neighbor};

verus! {

/// Each row with its distance to `query`.
pub open spec fn near_query<M: VectorMath>(
    math: &M,
    metric: Metric,
    vectors: Seq<Seq<u32>>,
    query: Seq<u32>,
) -> spec_fn(usize) -> Neighbor {
    |row: usize|
        Neighbor { row, distance: math.distance_of(metric, vectors[row as int], query) }
}

/// Each row, the second one given, with its distance from the first.
pub open spec fn row_space<M: VectorMath>(
    math: &M,
    metric: Metric,
    vectors: Seq<Seq<u32>>,
) -> spec_fn(usize, usize) -> Neighbor {
    |owner: usize, row: usize|
        Neighbor {
            row,
            distance: math.distance_of(metric, vectors[owner as int], vectors[row as int]),
        }
}

/// A graph as a search sees it.
pub struct Walk {
    /// Each row with its distance to the query.
    pub near: spec_fn(usize) -> Neighbor,
    /// The rows that each row is linked to.
    pub edges: Seq<Seq<usize>>,
    /// Only rows below this one are looked at.
    pub limit: usize,
    /// How many rows are kept.
    pub width: nat,
}

/// Where a search stands.
pub struct Beam {
    /// The rows met so far.
    pub visited: Set<usize>,
    /// The rows whose links are still to be followed, nearest first.
    pub frontier: Seq<Neighbor>,
    /// The nearest rows met so far, nearest first.
    pub found: Seq<Neighbor>,
}

/// The number of rows below `limit` that are not in `visited`.
pub open spec fn unvisited(visited: Set<usize>, limit: usize) -> nat
    decreases limit,
{
    if limit == 0 {
        0
    } else {
        unvisited(visited, (limit - 1) as usize) + if visited.contains((limit - 1) as usize) {
            0nat
        } else {
            1
        }
    }
}

impl Walk {
    /// Whether the search has yet to meet `row`.
    pub open spec fn fresh(self, beam: Beam, row: usize) -> bool {
        row < self.limit && !beam.visited.contains(row)
    }

    /// Row `row` met and taken up.
    pub open spec fn take_up(self, beam: Beam, row: usize) -> Beam {
        Beam {
            visited: beam.visited.insert(row),
            frontier: crate::ranking::insert(beam.frontier, (self.near)(row)),
            found: crate::ranking::first_few(
                crate::ranking::insert(beam.found, (self.near)(row)),
                self.width,
            ),
        }
    }

    /// An entry point is taken up unless it was met before.
    pub open spec fn enter(self, beam: Beam, row: usize) -> Beam {
        if self.fresh(beam, row) {
            self.take_up(beam, row)
        } else {
            beam
        }
    }

    /// All entry points in turn.
    pub open spec fn enter_all(self, beam: Beam, rows: Seq<usize>) -> Beam
        decreases rows.len(),
    {
        if rows.len() == 0 {
            beam
        } else {
            self.enter(self.enter_all(beam, rows.drop_last()), rows.last())
        }
    }

    /// Whether `row` would be among the rows kept.
    pub open spec fn promising(self, beam: Beam, row: usize) -> bool {
        beam.found.len() < self.width || crate::ranking::precedes(
            (self.near)(row).rank(),
            beam.found.last().rank(),
        )
    }

    /// A linked row is met, and taken up if it is promising.
    pub open spec fn look(self, beam: Beam, row: usize) -> Beam {
        if !self.fresh(beam, row) {
            beam
        } else if self.promising(beam, row) {
            self.take_up(beam, row)
        } else {
            Beam { visited: beam.visited.insert(row), frontier: beam.frontier, found: beam.found }
        }
    }

    /// All linked rows in turn.
    pub open spec fn look_all(self, beam: Beam, rows: Seq<usize>) -> Beam
        decreases rows.len(),
    {
        if rows.len() == 0 {
            beam
        } else {
            self.look(self.look_all(beam, rows.drop_last()), rows.last())
        }
    }

    /// The rows that `row` is linked to.
    pub open spec fn links(self, row: usize) -> Seq<usize> {
        if row < self.edges.len() {
            self.edges[row as int]
        } else {
            Seq::empty()
        }
    }

    /// Whether the search ends: nothing is left to follow, or enough rows are
    /// kept and the nearest one left to follow is beyond all of them.
    pub open spec fn done(self, beam: Beam) -> bool {
        beam.frontier.len() == 0 || (beam.found.len() >= self.width && crate::ranking::precedes(
            beam.found.last().rank(),
            beam.frontier.first().rank(),
        ))
    }

    /// The nearest row left is followed.
    pub open spec fn step(self, beam: Beam) -> Beam {
        self.look_all(
            Beam {
                visited: beam.visited,
                frontier: beam.frontier.drop_first(),
                found: beam.found,
            },
            self.links(beam.frontier.first().row),
        )
    }

    /// A bound on the steps that the search can still take.
    pub open spec fn steps_left(self, beam: Beam) -> nat {
        beam.frontier.len() + unvisited(beam.visited, self.limit)
    }

    /// The rows found once the search has ended.
    pub open spec fn run(self, beam: Beam) -> Seq<Neighbor>
        decreases self.steps_left(beam),
    {
        if self.done(beam) {
            beam.found
        } else {
            proof {
                lemma_step_advances(self, beam);
            }
            self.run(self.step(beam))
        }
    }

    /// The nearest of `best` and those of `rows` that are below the limit.
    pub open spec fn nearest_of(self, best: usize, rows: Seq<usize>) -> usize
        decreases rows.len(),
    {
        if rows.len() == 0 {
            best
        } else {
            let so_far = self.nearest_of(best, rows.drop_last());
            let row = rows.last();
            if row < self.limit && crate::ranking::precedes(
                (self.near)(row).rank(),
                (self.near)(so_far).rank(),
            ) {
                row
            } else {
                so_far
            }
        }
    }

    /// The number of rows below `limit` that are nearer than `row`.
    pub open spec fn nearer(self, row: usize, limit: usize) -> nat
        decreases limit,
    {
        if limit == 0 {
            0
        } else {
            self.nearer(row, (limit - 1) as usize) + if crate::ranking::precedes(
                (self.near)((limit - 1) as usize).rank(),
                (self.near)(row).rank(),
            ) {
                1nat
            } else {
                0
            }
        }
    }

    /// Where a descent from `at` ends: it moves to the nearest linked row for as
    /// long as that one is nearer.
    pub open spec fn descend(self, at: usize) -> usize
        decreases self.nearer(at, self.limit),
    {
        let next = self.nearest_of(at, self.links(at));
        if next == at {
            at
        } else {
            proof {
                lemma_descent_advances(self, at);
            }
            self.descend(next)
        }
    }

    /// Where a descent from `entry` ends. An entry that is not below the limit
    /// is left where it is.
    pub open spec fn greedy(self, entry: usize) -> usize {
        if entry < self.limit {
            self.descend(entry)
        } else {
            entry
        }
    }

    /// The rows found from `entries`, nearest first.
    pub open spec fn search(self, entries: Seq<usize>) -> Seq<Neighbor> {
        self.run(self.enter_all(empty_beam(), entries))
    }
}

/// A search that has met nothing.
pub open spec fn empty_beam() -> Beam {
    Beam { visited: Set::empty(), frontier: Seq::empty(), found: Seq::empty() }
}

pub proof fn lemma_unvisited_insert(visited: Set<usize>, limit: usize, row: usize)
    ensures
        unvisited(visited.insert(row), limit) == unvisited(visited, limit) - (if row < limit
            && !visited.contains(row) {
            1int
        } else {
            0
        }),
    decreases limit,
{
    if limit > 0 {
        lemma_unvisited_insert(visited, (limit - 1) as usize, row);
    }
}

proof fn lemma_look_all_advances(walk: Walk, beam: Beam, rows: Seq<usize>)
    ensures
        walk.steps_left(walk.look_all(beam, rows)) <= walk.steps_left(beam),
    decreases rows.len(),
{
    if rows.len() > 0 {
        let before = walk.look_all(beam, rows.drop_last());
        lemma_look_all_advances(walk, beam, rows.drop_last());
        lemma_unvisited_insert(before.visited, walk.limit, rows.last());
        crate::ranking::lemma_insert(before.frontier, (walk.near)(rows.last()));
    }
}

pub proof fn lemma_step_advances(walk: Walk, beam: Beam)
    requires
        beam.frontier.len() > 0,
    ensures
        walk.steps_left(walk.step(beam)) < walk.steps_left(beam),
{
    lemma_look_all_advances(
        walk,
        Beam { visited: beam.visited, frontier: beam.frontier.drop_first(), found: beam.found },
        walk.links(beam.frontier.first().row),
    );
}

pub proof fn lemma_nearest_of(walk: Walk, best: usize, rows: Seq<usize>)
    ensures
        ({
            let next = walk.nearest_of(best, rows);
            &&& next == best || (rows.contains(next) && next < walk.limit
                && crate::ranking::precedes((walk.near)(next).rank(), (walk.near)(best).rank()))
            &&& forall|row: usize| #[trigger]
                rows.contains(row) && row < walk.limit ==> !crate::ranking::precedes(
                    (walk.near)(row).rank(),
                    (walk.near)(next).rank(),
                )
        }),
    decreases rows.len(),
{
    if rows.len() > 0 {
        lemma_nearest_of(walk, best, rows.drop_last());
        crate::seqs::lemma_drop_last_contains(rows);
    }
}

proof fn lemma_nearer_monotone(walk: Walk, near: usize, far: usize, limit: usize)
    requires
        crate::ranking::precedes((walk.near)(near).rank(), (walk.near)(far).rank()),
    ensures
        walk.nearer(near, limit) <= walk.nearer(far, limit),
        near < limit ==> walk.nearer(near, limit) < walk.nearer(far, limit),
    decreases limit,
{
    if limit > 0 {
        lemma_nearer_monotone(walk, near, far, (limit - 1) as usize);
    }
}

pub proof fn lemma_descent_advances(walk: Walk, at: usize)
    requires
        walk.nearest_of(at, walk.links(at)) != at,
    ensures
        walk.nearer(walk.nearest_of(at, walk.links(at)), walk.limit) < walk.nearer(at, walk.limit),
{
    lemma_nearest_of(walk, at, walk.links(at));
    lemma_nearer_monotone(walk, walk.nearest_of(at, walk.links(at)), at, walk.limit);
}

/// The neighbour that `row` is to `query`.
fn neighbor_of_query<M: VectorMath>(
    math: &M,
    dataset: &Dataset,
    metric: Metric,
    query: &[u32],
    row: usize,
) -> (neighbor: Neighbor)
    requires
        crate::math::lawful(math),
        row < dataset@.len(),
    ensures
        neighbor == near_query(math, metric, dataset@, query@)(row),
{
    Neighbor { row, distance: math.distance(metric, dataset.vector(row), query) }
}

/// The walk that [`search_layer`] takes.
pub open spec fn layer_walk<M: VectorMath>(
    math: &M,
    vectors: Seq<Seq<u32>>,
    metric: Metric,
    query: Seq<u32>,
    edges: Seq<Seq<usize>>,
    ef: usize,
    allowed_rows: usize,
) -> Walk {
    Walk {
        near: near_query(math, metric, vectors, query),
        edges,
        limit: row_limit(vectors.len(), edges.len(), allowed_rows),
        width: crate::seqs::max(ef as nat, 1),
    }
}

/// Rows are looked at only if they are allowed, have a vector and have links.
pub open spec fn row_limit(vectors: nat, edges: nat, allowed_rows: usize) -> usize {
    crate::seqs::min(allowed_rows as nat, crate::seqs::min(vectors, edges)) as usize
}

/// Searches one layer of links for the `ef` rows nearest to `query`, from
/// `entry_points`, among the rows below `allowed_rows`.
pub fn search_layer<M: VectorMath>(
    math: &M,
    dataset: &Dataset,
    metric: Metric,
    query: &[u32],
    adjacency: &[Vec<usize>],
    entry_points: &[usize],
    ef: usize,
    allowed_rows: usize,
) -> (found: Vec<Neighbor>)
    requires
        crate::math::lawful(math),
    ensures
        found@ == layer_walk(
            math,
            dataset@,
            metric,
            query@,
            crate::dataset::contents(adjacency@),
            ef,
            allowed_rows,
        ).search(entry_points@),
{
    broadcast use vstd::std_specs::hash::group_hash_axioms;

    let width: usize = larger(ef, 1);
    let limit: usize = smaller(allowed_rows, smaller(dataset.len(), adjacency.len()));
    let ghost edges = crate::dataset::contents(adjacency@);
    let ghost walk = layer_walk(math, dataset@, metric, query@, edges, ef, allowed_rows);

    let mut visited: HashSet<usize> = HashSet::new();
    let mut candidates: MinQueue<Neighbor> = MinQueue::new();
    let mut results: TopK<Neighbor> = TopK::new(width);

    assert(entry_points@.take(0) =~= Seq::<usize>::empty());
    for i in 0..entry_points.len()
        invariant
            crate::math::lawful(math),
            walk == layer_walk(math, dataset@, metric, query@, edges, ef, allowed_rows),
            limit == walk.limit,
            limit <= dataset@.len(),
            width == walk.width,
            width >= 1,
            candidates.wf(),
            results.wf(),
            results.capacity() == width,
            (Beam { visited: visited@, frontier: candidates@, found: results@ })
                == walk.enter_all(empty_beam(), entry_points@.take(i as int)),
    {
        let row: usize = entry_points[i];
        assert(entry_points@.take(i + 1).drop_last() =~= entry_points@.take(i as int));
        assert(visited@.contains(row) ==> visited@.insert(row) =~= visited@);
        if row < limit && visited.insert(row) {
            let neighbor = neighbor_of_query(math, dataset, metric, query, row);
            candidates.push(neighbor);
            results.push(neighbor);
        }
    }
    assert(entry_points@.take(entry_points@.len() as int) =~= entry_points@);

    let ghost start = walk.enter_all(empty_beam(), entry_points@);
    loop
        invariant_except_break
            walk.run(start) == walk.run(
                Beam { visited: visited@, frontier: candidates@, found: results@ },
            ),
        invariant
            crate::math::lawful(math),
            walk == layer_walk(math, dataset@, metric, query@, edges, ef, allowed_rows),
            edges == crate::dataset::contents(adjacency@),
            limit == walk.limit,
            limit <= dataset@.len(),
            limit <= adjacency@.len(),
            width == walk.width,
            width >= 1,
            candidates.wf(),
            results.wf(),
            results.capacity() == width,
        ensures
            walk.run(start) == results@,
        decreases
            walk.steps_left(Beam { visited: visited@, frontier: candidates@, found: results@ }),
    {
        let ghost beam = Beam { visited: visited@, frontier: candidates@, found: results@ };
        match candidates.pop() {
            None => {
                break ;
            },
            Some(candidate) => {
                let full: bool = results.len() >= width;
                let beyond: bool = match results.worst() {
                    Some(worst) => worst.before(&candidate),
                    None => false,
                };
                if full && beyond {
                    break ;
                }
                proof {
                    lemma_step_advances(walk, beam);
                }
                let ghost popped = Beam {
                    visited: visited@,
                    frontier: candidates@,
                    found: results@,
                };
                if candidate.row < adjacency.len() {
                    let links = &adjacency[candidate.row];
                    assert(links@ == walk.links(candidate.row));
                    assert(links@.take(0) =~= Seq::<usize>::empty());
                    for i in 0..links.len()
                        invariant
                            crate::math::lawful(math),
                            walk == layer_walk(
                                math,
                                dataset@,
                                metric,
                                query@,
                                edges,
                                ef,
                                allowed_rows,
                            ),
                            limit == walk.limit,
                            limit <= dataset@.len(),
                            width == walk.width,
                            width >= 1,
                            candidates.wf(),
                            results.wf(),
                            results.capacity() == width,
                            (Beam { visited: visited@, frontier: candidates@, found: results@ })
                                == walk.look_all(popped, links@.take(i as int)),
                    {
                        let row: usize = links[i];
                        assert(links@.take(i + 1).drop_last() =~= links@.take(i as int));
                        assert(visited@.contains(row) ==> visited@.insert(row) =~= visited@);
                        if row < limit && visited.insert(row) {
                            let neighbor = neighbor_of_query(math, dataset, metric, query, row);
                            let room: bool = results.len() < width;
                            let better: bool = match results.worst() {
                                Some(worst) => neighbor.before(&worst),
                                None => false,
                            };
                            if room || better {
                                candidates.push(neighbor);
                                results.push(neighbor);
                            }
                        }
                    }
                    assert(links@.take(links@.len() as int) =~= links@);
                }
            },
        }
    }
    results.into_sorted()
}

/// Descends one layer of links greedily towards `query`: from `entry` to the
/// nearest linked row, for as long as that one is nearer.
pub fn greedy_search<M: VectorMath>(
    math: &M,
    dataset: &Dataset,
    metric: Metric,
    query: &[u32],
    adjacency: &[Vec<usize>],
    entry: usize,
    allowed_rows: usize,
) -> (nearest: usize)
    requires
        crate::math::lawful(math),
    ensures
        nearest == layer_walk(
            math,
            dataset@,
            metric,
            query@,
            crate::dataset::contents(adjacency@),
            1,
            allowed_rows,
        ).greedy(entry),
{
    let limit: usize = smaller(allowed_rows, smaller(dataset.len(), adjacency.len()));
    let ghost edges = crate::dataset::contents(adjacency@);
    let ghost walk = layer_walk(math, dataset@, metric, query@, edges, 1, allowed_rows);
    if entry >= limit {
        return entry;
    }
    let mut at = neighbor_of_query(math, dataset, metric, query, entry);
    loop
        invariant
            crate::math::lawful(math),
            walk == layer_walk(math, dataset@, metric, query@, edges, 1, allowed_rows),
            edges == crate::dataset::contents(adjacency@),
            limit == walk.limit,
            limit <= dataset@.len(),
            limit <= adjacency@.len(),
            at.row < limit,
            at == (walk.near)(at.row),
            walk.descend(entry) == walk.descend(at.row),
        ensures
            walk.descend(entry) == at.row,
        decreases walk.nearer(at.row, walk.limit),
    {
        let links = &adjacency[at.row];
        assert(links@ == walk.links(at.row));
        let mut best = at;
        assert(links@.take(0) =~= Seq::<usize>::empty());
        for i in 0..links.len()
            invariant
                crate::math::lawful(math),
                walk == layer_walk(math, dataset@, metric, query@, edges, 1, allowed_rows),
                limit == walk.limit,
                limit <= dataset@.len(),
                best.row < limit,
                best == (walk.near)(best.row),
                best.row == walk.nearest_of(at.row, links@.take(i as int)),
        {
            let row: usize = links[i];
            assert(links@.take(i + 1).drop_last() =~= links@.take(i as int));
            if row < limit {
                let neighbor = neighbor_of_query(math, dataset, metric, query, row);
                if neighbor.before(&best) {
                    best = neighbor;
                }
            }
        }
        assert(links@.take(links@.len() as int) =~= links@);
        if best.row == at.row {
            break ;
        }
        proof {
            lemma_descent_advances(walk, at.row);
        }
        at = best;
    }
    at.row
}

/// The rows of `neighbors`.
pub open spec fn rows_of(neighbors: Seq<Neighbor>) -> Seq<usize> {
    Seq::new(neighbors.len(), |i: int| neighbors[i].row)
}

/// `rows` as neighbours of row `owner`.
pub open spec fn neighbors_of(
    space: spec_fn(usize, usize) -> Neighbor,
    owner: usize,
    rows: Seq<usize>,
) -> Seq<Neighbor> {
    Seq::new(rows.len(), |i: int| space(owner, rows[i]))
}

/// `rows` with every run of one row cut down to a single one.
pub open spec fn dedup(rows: Seq<usize>) -> Seq<usize>
    decreases rows.len(),
{
    if rows.len() <= 1 {
        rows
    } else if rows.last() == rows[rows.len() - 2] {
        dedup(rows.drop_last())
    } else {
        dedup(rows.drop_last()).push(rows.last())
    }
}

/// The links of `owner` that stay: the nearest `max_connections` of `rows`,
/// nearest first, each once, `owner` itself not among them.
pub open spec fn pruned(
    space: spec_fn(usize, usize) -> Neighbor,
    owner: usize,
    rows: Seq<usize>,
    max_connections: nat,
) -> Seq<usize> {
    crate::ranking::first_few(
        crate::seqs::without(
            dedup(rows_of(crate::ranking::ascending(neighbors_of(space, owner, rows)))),
            owner,
        ),
        max_connections,
    )
}

/// Cuts the links of row `owner` down to the `max_connections` nearest, each
/// once, without a link to `owner` itself.
pub fn prune_neighbors<M: VectorMath>(
    math: &M,
    dataset: &Dataset,
    metric: Metric,
    owner: usize,
    neighbors: &mut Vec<usize>,
    max_connections: usize,
)
    requires
        crate::math::lawful(math),
        owner < dataset@.len(),
        forall|i: int|
            0 <= i < old(neighbors)@.len() ==> (#[trigger] old(neighbors)@[i]) < dataset@.len(),
    ensures
        final(neighbors)@ == pruned(
            row_space(math, metric, dataset@),
            owner,
            old(neighbors)@,
            max_connections as nat,
        ),
        crate::graph_laws::keeps_nearest(
            |row: usize|
                math.distance_of(metric, dataset@[owner as int], dataset@[row as int]),
            owner,
            old(neighbors)@,
            max_connections as nat,
            final(neighbors)@,
        ),
{
    let ghost rows = neighbors@;
    let ghost space = row_space(math, metric, dataset@);
    let mut ranked: Vec<Neighbor> = Vec::new();
    for i in 0..neighbors.len()
        invariant
            crate::math::lawful(math),
            owner < dataset@.len(),
            space == row_space(math, metric, dataset@),
            rows == neighbors@,
            forall|j: int| 0 <= j < rows.len() ==> (#[trigger] rows[j]) < dataset@.len(),
            ranked@ == neighbors_of(space, owner, rows).take(i as int),
    {
        let row: usize = neighbors[i];
        ranked.push(
            Neighbor {
                row,
                distance: math.distance(metric, dataset.vector(owner), dataset.vector(row)),
            },
        );
        assert(neighbors_of(space, owner, rows).take(i + 1) =~= neighbors_of(
            space,
            owner,
            rows,
        ).take(i as int).push(neighbors_of(space, owner, rows)[i as int]));
    }
    assert(neighbors_of(space, owner, rows).take(rows.len() as int) =~= neighbors_of(
        space,
        owner,
        rows,
    ));
    let sorted = sort(ranked);
    let ghost order = rows_of(sorted@);
    let mut kept: Vec<usize> = Vec::new();
    for i in 0..sorted.len()
        invariant
            order == rows_of(sorted@),
            kept@ == dedup(order.take(i as int)),
    {
        let row: usize = sorted[i].row;
        proof {
            assert(order.take(i + 1).drop_last() =~= order.take(i as int));
            if i > 0 {
                assert(order.take(i + 1)[i - 1] == order[i - 1]);
            }
        }
        if i == 0 || sorted[i - 1].row != row {
            kept.push(row);
            assert(i == 0 ==> kept@ =~= order.take(1));
        }
    }
    assert(order.take(order.len() as int) =~= order);
    let mut kept = retain_others(kept.as_slice(), owner);
    if max_connections < kept.len() {
        let ghost whole = kept@;
        kept.truncate(max_connections);
        assert(kept@ =~= whole.take(max_connections as int));
    }
    *neighbors = kept;
    proof {
        let between = |a: usize, b: usize|
            math.distance_of(metric, dataset@[a as int], dataset@[b as int]);
        crate::graph_laws::lemma_keeps_nearest(
            space,
            between,
            owner,
            rows,
            max_connections as nat,
        );
        crate::graph_laws::lemma_same_nearest(
            |row: usize| between(owner, row),
            |row: usize|
                math.distance_of(metric, dataset@[owner as int], dataset@[row as int]),
            owner,
            rows,
            max_connections as nat,
            neighbors@,
        );
    }
}

/// Whether `space` gives each row under its own name.
pub open spec fn names_rows(space: spec_fn(usize, usize) -> Neighbor) -> bool {
    forall|owner: usize, row: usize| (#[trigger] space(owner, row)).row == row
}

/// Whether `rows` ascend strictly in their distance from `owner`.
pub open spec fn strictly_nearer(
    space: spec_fn(usize, usize) -> Neighbor,
    owner: usize,
    rows: Seq<usize>,
) -> bool {
    forall|i: int, j: int|
        0 <= i < j < rows.len() ==> crate::ranking::precedes(
            space(owner, #[trigger] rows[i]).rank(),
            space(owner, #[trigger] rows[j]).rank(),
        )
}

proof fn lemma_dedup(
    space: spec_fn(usize, usize) -> Neighbor,
    owner: usize,
    sorted: Seq<Neighbor>,
)
    requires
        names_rows(space),
        crate::ranking::ascends(sorted),
        forall|i: int|
            0 <= i < sorted.len() ==> (#[trigger] sorted[i]) == space(owner, sorted[i].row),
    ensures
        strictly_nearer(space, owner, dedup(rows_of(sorted))),
        sorted.len() > 0 ==> dedup(rows_of(sorted)).len() > 0 && dedup(rows_of(sorted)).last()
            == sorted.last().row,
        forall|x: usize| #[trigger]
            dedup(rows_of(sorted)).contains(x) <==> rows_of(sorted).contains(x),
    decreases sorted.len(),
{
    let rows = rows_of(sorted);
    if sorted.len() == 1 {
        assert(dedup(rows) == rows);
    } else if sorted.len() > 1 {
        let rest = sorted.drop_last();
        let last = sorted.last();
        assert forall|i: int, j: int| 0 <= i < j < rest.len() implies !crate::ranking::precedes(
            (#[trigger] rest[j]).rank(),
            (#[trigger] rest[i]).rank(),
        ) by {
            assert(rest[i] == sorted[i] && rest[j] == sorted[j]);
        }
        assert forall|i: int| 0 <= i < rest.len() implies (#[trigger] rest[i]) == space(
            owner,
            rest[i].row,
        ) by {
            assert(rest[i] == sorted[i]);
        }
        lemma_dedup(space, owner, rest);
        assert(rows_of(rest) =~= rows.drop_last());
        let part = dedup(rows_of(rest));
        let all = dedup(rows);
        let n = sorted.len() as int;
        assert(rest.last() == sorted[n - 2]);
        assert(rows[n - 2] == rest.last().row);
        if last.row == rest.last().row {
            assert(all == part);
        } else {
            assert(all == part.push(last.row));
            assert(crate::ranking::precedes(rest.last().rank(), last.rank())) by {
                assert(!crate::ranking::precedes(sorted[n - 1].rank(), sorted[n - 2].rank()));
            }
            assert forall|i: int, j: int| 0 <= i < j < all.len() implies crate::ranking::precedes(
                space(owner, #[trigger] all[i]).rank(),
                space(owner, #[trigger] all[j]).rank(),
            ) by {
                assert(all[i] == part[i]);
                if j < part.len() {
                    assert(all[j] == part[j]);
                } else {
                    assert(last == sorted[n - 1]);
                    assert(sorted[n - 2] == space(owner, sorted[n - 2].row));
                    if i < part.len() - 1 {
                        assert(crate::ranking::precedes(
                            space(owner, part[i]).rank(),
                            space(owner, part[part.len() - 1]).rank(),
                        ));
                    }
                }
            }
        }
        assert forall|x: usize| #[trigger] all.contains(x) <==> rows.contains(x) by {
            assert(rows =~= rows.drop_last().push(rows.last()));
            crate::seqs::lemma_push_contains(rows.drop_last(), rows.last());
            crate::seqs::lemma_push_contains(part, last.row);
            assert(part.contains(x) <==> rows_of(rest).contains(x));
            assert(part[part.len() - 1] == rest.last().row);
            assert(rows.drop_last().push(rows.last()).contains(x) <==> x == rows.last()
                || rows.drop_last().contains(x));
            assert(part.push(last.row).contains(x) <==> x == last.row || part.contains(x));
        }
    }
}

/// Taking a row out leaves the others in their order.
pub proof fn lemma_without_ascends(
    space: spec_fn(usize, usize) -> Neighbor,
    owner: usize,
    rows: Seq<usize>,
    row: usize,
)
    requires
        strictly_nearer(space, owner, rows),
    ensures
        strictly_nearer(space, owner, crate::seqs::without(rows, row)),
    decreases rows.len(),
{
    if rows.len() > 0 {
        let rest = rows.drop_last();
        let last = rows.last();
        assert(strictly_nearer(space, owner, rest)) by {
            assert forall|i: int, j: int|
                0 <= i < j < rest.len() implies crate::ranking::precedes(
                space(owner, #[trigger] rest[i]).rank(),
                space(owner, #[trigger] rest[j]).rank(),
            ) by {
                assert(rest[i] == rows[i] && rest[j] == rows[j]);
            }
        }
        lemma_without_ascends(space, owner, rest, row);
        crate::seqs::lemma_without(rest, row);
        let before = crate::seqs::without(rest, row);
        let after = crate::seqs::without(rows, row);
        if last != row {
            assert(after == before.push(last));
            assert forall|i: int, j: int|
                0 <= i < j < after.len() implies crate::ranking::precedes(
                space(owner, #[trigger] after[i]).rank(),
                space(owner, #[trigger] after[j]).rank(),
            ) by {
                assert(after[i] == before[i]);
                if j < before.len() {
                    assert(after[j] == before[j]);
                } else {
                    assert(before.contains(before[i]));
                    assert(rest.contains(before[i]));
                    let h = choose|h: int| 0 <= h < rest.len() && rest[h] == before[i];
                    assert(rows[h] == before[i]);
                    assert(rows[rows.len() - 1] == last);
                }
            }
        }
    }
}

/// Pruning keeps the nearest rows: those kept are at most `max_connections`
/// of the rows given, ascend strictly in their distance from `owner` (so none
/// is there twice), `owner` itself is not among them, and any other row is left
/// out only if the places are taken by rows nearer than it.
pub proof fn pruning_keeps_the_nearest(
    space: spec_fn(usize, usize) -> Neighbor,
    owner: usize,
    rows: Seq<usize>,
    max_connections: nat,
)
    requires
        names_rows(space),
    ensures
        ({
            let kept = pruned(space, owner, rows, max_connections);
            &&& kept.len() <= max_connections
            &&& strictly_nearer(space, owner, kept)
            &&& kept.no_duplicates()
            &&& !kept.contains(owner)
            &&& forall|x: usize| #[trigger] kept.contains(x) ==> rows.contains(x)
            &&& forall|x: usize, i: int|
                #![trigger rows.contains(x), kept[i]]
                rows.contains(x) && x != owner && !kept.contains(x) && 0 <= i < kept.len()
                    ==> crate::ranking::precedes(
                    space(owner, kept[i]).rank(),
                    space(owner, x).rank(),
                )
            &&& forall|x: usize| #[trigger]
                rows.contains(x) && x != owner && !kept.contains(x) ==> kept.len()
                    == max_connections
        }),
{
    let neighbors = neighbors_of(space, owner, rows);
    let sorted = crate::ranking::ascending(neighbors);
    crate::ranking::ascending_sorts(neighbors);
    assert forall|i: int| 0 <= i < sorted.len() implies (#[trigger] sorted[i]) == space(
        owner,
        sorted[i].row,
    ) by {
        assert(sorted.contains(sorted[i]));
        assert(neighbors.contains(sorted[i]));
        let j = choose|j: int| 0 <= j < neighbors.len() && neighbors[j] == sorted[i];
        assert(neighbors[j] == space(owner, rows[j]));
    }
    lemma_dedup(space, owner, sorted);
    let distinct = dedup(rows_of(sorted));
    assert forall|x: usize| rows.contains(x) <==> distinct.contains(x) by {
        if rows.contains(x) {
            let i = choose|i: int| 0 <= i < rows.len() && rows[i] == x;
            assert(neighbors[i] == space(owner, x));
            assert(neighbors.contains(space(owner, x)));
            assert(sorted.contains(space(owner, x)));
            let j = choose|j: int| 0 <= j < sorted.len() && sorted[j] == space(owner, x);
            assert(rows_of(sorted)[j] == x);
            assert(rows_of(sorted).contains(x));
        }
        if distinct.contains(x) {
            assert(rows_of(sorted).contains(x));
            let j = choose|j: int| 0 <= j < sorted.len() && rows_of(sorted)[j] == x;
            assert(sorted.contains(sorted[j]));
            assert(neighbors.contains(sorted[j]));
            let i = choose|i: int| 0 <= i < neighbors.len() && neighbors[i] == sorted[j];
            assert(rows[i] == x);
        }
    }
    let others = crate::seqs::without(distinct, owner);
    crate::seqs::lemma_without(distinct, owner);
    lemma_without_ascends(space, owner, distinct, owner);
    let kept = pruned(space, owner, rows, max_connections);
    assert forall|i: int| 0 <= i < kept.len() implies #[trigger] kept[i] == others[i] by {}
    assert forall|i: int, j: int| 0 <= i < j < kept.len() implies crate::ranking::precedes(
        space(owner, #[trigger] kept[i]).rank(),
        space(owner, #[trigger] kept[j]).rank(),
    ) by {
        assert(kept[i] == others[i] && kept[j] == others[j]);
    }
    assert forall|i: int, j: int|
        0 <= i < kept.len() && 0 <= j < kept.len() && i != j implies kept[i] != kept[j] by {
        if i < j {
            assert(crate::ranking::precedes(
                space(owner, kept[i]).rank(),
                space(owner, kept[j]).rank(),
            ));
        } else {
            assert(crate::ranking::precedes(
                space(owner, kept[j]).rank(),
                space(owner, kept[i]).rank(),
            ));
        }
    }
    assert forall|x: usize| #[trigger] kept.contains(x) implies rows.contains(x) && x
        != owner by {
        let i = choose|i: int| 0 <= i < kept.len() && kept[i] == x;
        assert(others[i] == x);
        assert(others.contains(x));
        assert(distinct.contains(x));
    }
    assert forall|x: usize| #[trigger]
        rows.contains(x) && x != owner && !kept.contains(x) implies kept.len() == max_connections
        && forall|i: int|
        0 <= i < kept.len() ==> crate::ranking::precedes(
            space(owner, #[trigger] kept[i]).rank(),
            space(owner, x).rank(),
        ) by {
        assert(distinct.contains(x));
        assert(others.contains(x));
        let j = choose|j: int| 0 <= j < others.len() && others[j] == x;
        if j < kept.len() {
            assert(kept[j] == x);
        }
        assert forall|i: int| 0 <= i < kept.len() implies crate::ranking::precedes(
            space(owner, #[trigger] kept[i]).rank(),
            space(owner, x).rank(),
        ) by {
            assert(kept[i] == others[i]);
        }
    }
}

} // verus!
