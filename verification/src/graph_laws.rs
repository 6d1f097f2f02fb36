//! What searching, descending and linking a graph do, said of distances, links
//! and rows alone.
//!
//! The laws speak of what a call was given and what it answered. `dist` is
//! always the distance of each row from what is looked for, as a bit pattern.

use vstd::prelude::*;

use crate::dataset::Dataset;
use crate::graph::{greedy_search, search_layer, Walk};
use crate::math::VectorMath;
use crate::ranking::Ranked;
use crate::types::{Metric, Neighbor};

verus! {

/// Whether row `a` is nearer than row `b`, or as near and before it.
pub open spec fn ahead(dist: spec_fn(usize) -> u32, a: usize, b: usize) -> bool {
    let p = crate::bits::order_32(dist(a));
    let q = crate::bits::order_32(dist(b));
    p < q || (p == q && a < b)
}

/// Whether `found` are rows with their distances, nearest first, each once.
pub open spec fn nearest_ranked(dist: spec_fn(usize) -> u32, found: Seq<Neighbor>) -> bool {
    &&& forall|i: int|
        0 <= i < found.len() ==> (#[trigger] found[i]).distance == dist(found[i].row)
    &&& forall|i: int, j: int|
        0 <= i < j < found.len() ==> ahead(
            dist,
            (#[trigger] found[i]).row,
            (#[trigger] found[j]).row,
        )
}

/// Whether `found` names `row`.
pub open spec fn names(found: Seq<Neighbor>, row: usize) -> bool {
    exists|i: int| 0 <= i < found.len() && (#[trigger] found[i]).row == row
}

/// Whether `found` names `row`, or is `width` rows that are all ahead of it.
pub open spec fn found_or_beaten(
    dist: spec_fn(usize) -> u32,
    found: Seq<Neighbor>,
    width: nat,
    row: usize,
) -> bool {
    names(found, row) || (found.len() == width && forall|i: int|
        0 <= i < found.len() ==> ahead(dist, (#[trigger] found[i]).row, row))
}

/// Whether `rows` leads along links from one of `entries` to `row`, over rows
/// below `limit`.
pub open spec fn path(
    edges: Seq<Seq<usize>>,
    limit: nat,
    entries: Seq<usize>,
    row: usize,
    rows: Seq<usize>,
) -> bool {
    &&& rows.len() > 0
    &&& entries.contains(rows[0])
    &&& rows.last() == row
    &&& forall|i: int| 0 <= i < rows.len() ==> (#[trigger] rows[i]) < limit
    &&& forall|i: int|
        0 < i < rows.len() ==> edges[rows[i - 1] as int].contains(#[trigger] rows[i])
}

/// Whether some path leads from `entries` to `row`.
pub open spec fn joined(
    edges: Seq<Seq<usize>>,
    limit: nat,
    entries: Seq<usize>,
    row: usize,
) -> bool {
    exists|rows: Seq<usize>| path(edges, limit, entries, row, rows)
}

/// What a search of one layer for `width` rows answers: rows below `limit` that
/// can be reached, nearest first; no entry point and no row linked from one
/// found is left out but for `width` rows ahead of it. Rows are followed nearest
/// first until the nearest `width` of those met are followed.
pub open spec fn searched(
    dist: spec_fn(usize) -> u32,
    edges: Seq<Seq<usize>>,
    limit: nat,
    entries: Seq<usize>,
    width: nat,
    found: Seq<Neighbor>,
) -> bool {
    &&& found.len() <= width
    &&& nearest_ranked(dist, found)
    &&& forall|i: int|
        0 <= i < found.len() ==> (#[trigger] found[i]).row < limit && joined(
            edges,
            limit,
            entries,
            found[i].row,
        )
    &&& forall|row: usize| #[trigger]
        entries.contains(row) && row < limit ==> found_or_beaten(dist, found, width, row)
    &&& forall|i: int, next: usize|
        #![trigger found[i], edges[found[i].row as int].contains(next)]
        0 <= i < found.len() && edges[found[i].row as int].contains(next) && next < limit
            ==> found_or_beaten(dist, found, width, next)
    &&& exists|followed: Seq<usize>| #[trigger]
        crate::beam_laws::followed_out(dist, edges, limit, entries, width, found, followed)
}

/// Whether `few` are the first `k` of `all`, or all of them where they are fewer.
pub open spec fn cut_to(all: Seq<Neighbor>, k: nat, few: Seq<Neighbor>) -> bool {
    &&& few.len() <= k && few.len() <= all.len()
    &&& few.len() == k || few.len() == all.len()
    &&& forall|i: int| 0 <= i < few.len() ==> #[trigger] few[i] == all[i]
}

/// How many rows a search keeps that is to find `k`: `ef`, or `k` where that is
/// more, and at least one.
pub open spec fn effort(ef: usize, k: usize) -> nat {
    if ef == 0 && k == 0 {
        1
    } else if ef < k {
        k as nat
    } else {
        ef as nat
    }
}

/// Whether no row below `limit` that `row` is linked to is ahead of it.
pub open spec fn local_minimum(
    dist: spec_fn(usize) -> u32,
    edges: Seq<Seq<usize>>,
    limit: nat,
    row: usize,
) -> bool {
    forall|next: usize| #[trigger]
        edges[row as int].contains(next) && next < limit ==> !ahead(dist, next, row)
}

/// Whether `rows` are the rows of a steepest descent: each after the first is the
/// nearest of the rows below `limit` that the one before it is linked to, and
/// ahead of it; from the last none leads on.
pub open spec fn steepest(
    dist: spec_fn(usize) -> u32,
    edges: Seq<Seq<usize>>,
    limit: nat,
    rows: Seq<usize>,
) -> bool {
    &&& rows.len() > 0
    &&& forall|i: int|
        0 < i < rows.len() ==> nearest_link(dist, edges, limit, rows[i - 1], #[trigger] rows[i])
    &&& local_minimum(dist, edges, limit, rows.last())
}

/// Whether `to` is the nearest of the rows below `limit` that `from` is linked to,
/// and ahead of it.
pub open spec fn nearest_link(
    dist: spec_fn(usize) -> u32,
    edges: Seq<Seq<usize>>,
    limit: nat,
    from: usize,
    to: usize,
) -> bool {
    &&& edges[from as int].contains(to)
    &&& to < limit
    &&& ahead(dist, to, from)
    &&& forall|next: usize| #[trigger]
        edges[from as int].contains(next) && next < limit ==> !ahead(dist, next, to)
}

/// Whether a steepest descent leads from `from` to `to`.
pub open spec fn slides(
    dist: spec_fn(usize) -> u32,
    edges: Seq<Seq<usize>>,
    limit: nat,
    from: usize,
    to: usize,
) -> bool {
    exists|rows: Seq<usize>| #[trigger]
        steepest(dist, edges, limit, rows) && rows[0] == from && rows.last() == to
}

/// The walk of a layer by the distances `dist`.
pub open spec fn walk_by(walk: Walk, dist: spec_fn(usize) -> u32) -> bool {
    &&& walk.width >= 1
    &&& walk.limit <= walk.edges.len()
    &&& forall|row: usize|
        (#[trigger] (walk.near)(row)) == (Neighbor { row, distance: dist(row) })
}

proof fn lemma_joined(walk: Walk, entries: Seq<usize>, row: usize)
    requires
        walk.limit <= walk.edges.len(),
        crate::search_laws::reachable(walk, entries, row),
    ensures
        joined(walk.edges, walk.limit as nat, entries, row),
{
    let rows = choose|rows: Seq<usize>| crate::search_laws::leads(walk, entries, row, rows);
    assert forall|i: int| 0 < i < rows.len() implies walk.edges[rows[i - 1] as int].contains(
        #[trigger] rows[i],
    ) by {
        assert(walk.links(rows[i - 1]).contains(rows[i]));
        assert(rows[i - 1] < walk.limit);
    }
    assert(path(walk.edges, walk.limit as nat, entries, row, rows));
}

proof fn lemma_found_or_beaten(
    walk: Walk,
    dist: spec_fn(usize) -> u32,
    found: Seq<Neighbor>,
    row: usize,
)
    requires
        walk_by(walk, dist),
        crate::search_laws::true_neighbors(walk, found),
        crate::search_laws::kept_or_beaten(walk, found, row),
    ensures
        found_or_beaten(dist, found, walk.width, row),
{
    if found.contains((walk.near)(row)) {
        let i = choose|i: int| 0 <= i < found.len() && found[i] == (walk.near)(row);
        assert(found[i].row == row);
    } else {
        assert forall|i: int| 0 <= i < found.len() implies ahead(
            dist,
            (#[trigger] found[i]).row,
            row,
        ) by {
            assert(found.contains(found[i]));
            assert(crate::ranking::precedes(found[i].rank(), (walk.near)(row).rank()));
            assert(found[i] == (walk.near)(found[i].row));
        }
    }
}

/// What a walk finds, said of distances and links.
pub proof fn lemma_searched(walk: Walk, dist: spec_fn(usize) -> u32, entries: Seq<usize>)
    requires
        walk_by(walk, dist),
    ensures
        searched(
            dist,
            walk.edges,
            walk.limit as nat,
            entries,
            walk.width,
            walk.search(entries),
        ),
{
    assert forall|row: usize| (#[trigger] (walk.near)(row)).row == row by {}
    let found = walk.search(entries);
    let followed = crate::beam_laws::lemma_followed_out(walk, dist, entries);
    crate::search_laws::search_finds_true_neighbors(walk, entries);
    crate::search_laws::search_stays_reachable(walk, entries);
    crate::search_laws::search_leaves_out_only_for_nearer_rows(walk, entries);
    assert forall|i: int| 0 <= i < found.len() implies (#[trigger] found[i]).row < walk.limit
        && found[i] == (walk.near)(found[i].row) && joined(
        walk.edges,
        walk.limit as nat,
        entries,
        found[i].row,
    ) by {
        assert(found.contains(found[i]));
        lemma_joined(walk, entries, found[i].row);
    }
    assert forall|i: int, j: int| 0 <= i < j < found.len() implies ahead(
        dist,
        (#[trigger] found[i]).row,
        (#[trigger] found[j]).row,
    ) by {
        assert(found[i] == (walk.near)(found[i].row) && found[j] == (walk.near)(found[j].row));
        assert(!crate::ranking::precedes(found[j].rank(), found[i].rank()));
        if found[i].rank() == found[j].rank() {
            Neighbor::rank_identifies(found[i], found[j]);
        }
    }
    assert forall|row: usize| #[trigger] entries.contains(row) && row
        < walk.limit implies found_or_beaten(dist, found, walk.width, row) by {
        lemma_found_or_beaten(walk, dist, found, row);
    }
    assert forall|i: int, next: usize|
        #![trigger found[i], walk.edges[found[i].row as int].contains(next)]
        0 <= i < found.len() && walk.edges[found[i].row as int].contains(next) && next
            < walk.limit implies found_or_beaten(dist, found, walk.width, next) by {
        let x = found[i];
        assert(found.contains(x));
        assert(walk.links(x.row).contains(next));
        lemma_found_or_beaten(walk, dist, found, next);
    }
}

/// The rows of a descent, said of distances and links.
proof fn lemma_steepest(walk: Walk, dist: spec_fn(usize) -> u32, at: usize) -> (rows: Seq<usize>)
    requires
        walk_by(walk, dist),
        at < walk.limit,
    ensures
        steepest(dist, walk.edges, walk.limit as nat, rows),
        rows[0] == at,
        rows.last() == walk.descend(at),
    decreases walk.nearer(at, walk.limit),
{
    let limit = walk.limit as nat;
    let links = walk.links(at);
    let next = walk.nearest_of(at, links);
    crate::graph::lemma_nearest_of(walk, at, links);
    assert(links == walk.edges[at as int]);
    assert((walk.near)(at) == (Neighbor { row: at, distance: dist(at) }));
    assert((walk.near)(next) == (Neighbor { row: next, distance: dist(next) }));
    assert forall|x: usize| #[trigger]
        walk.edges[at as int].contains(x) && x < limit implies !ahead(dist, x, next) by {
        assert(links.contains(x));
        assert((walk.near)(x) == (Neighbor { row: x, distance: dist(x) }));
    }
    if next == at {
        let rows = seq![at];
        rows
    } else {
        crate::graph::lemma_descent_advances(walk, at);
        let rest = lemma_steepest(walk, dist, next);
        let rows = seq![at] + rest;
        assert forall|i: int| 0 < i < rows.len() implies nearest_link(
            dist,
            walk.edges,
            limit,
            rows[i - 1],
            #[trigger] rows[i],
        ) by {
            assert(rows[i] == rest[i - 1]);
            if i > 1 {
                assert(rows[i - 1] == rest[i - 2]);
            }
        }
        rows
    }
}

/// Where a walk descends to, said of distances and links.
pub proof fn lemma_descended(walk: Walk, dist: spec_fn(usize) -> u32, entry: usize)
    requires
        walk_by(walk, dist),
        entry < walk.limit,
    ensures
        walk.greedy(entry) < walk.limit,
        local_minimum(dist, walk.edges, walk.limit as nat, walk.greedy(entry)),
        !ahead(dist, entry, walk.greedy(entry)),
        joined(walk.edges, walk.limit as nat, seq![entry], walk.greedy(entry)),
        slides(dist, walk.edges, walk.limit as nat, entry, walk.greedy(entry)),
{
    let rows = lemma_steepest(walk, dist, entry);
    crate::search_laws::descent_ends_at_a_local_minimum(walk, entry);
    let end = walk.greedy(entry);
    lemma_joined(walk, seq![entry], end);
    assert((walk.near)(end) == (Neighbor { row: end, distance: dist(end) }));
    assert((walk.near)(entry) == (Neighbor { row: entry, distance: dist(entry) }));
    assert forall|next: usize| #[trigger]
        walk.edges[end as int].contains(next) && next < walk.limit implies !ahead(
        dist,
        next,
        end,
    ) by {
        assert(walk.links(end).contains(next));
        assert((walk.near)(next) == (Neighbor { row: next, distance: dist(next) }));
    }
}

/// The number of rows that a search may look at: those allowed that have a
/// vector and links.
pub open spec fn in_view(vectors: nat, edges: nat, allowed_rows: nat) -> nat {
    if allowed_rows <= vectors && allowed_rows <= edges {
        allowed_rows
    } else if vectors <= edges {
        vectors
    } else {
        edges
    }
}

/// A search of a layer answers rows in reach with their distances from the
/// query, nearest first, and leaves an entry point or a linked row out only for
/// `ef` rows nearer to the query.
pub proof fn searching_a_layer_finds_the_nearest<M: VectorMath>(
    math: &M,
    dataset: &Dataset,
    metric: Metric,
    query: &[u32],
    adjacency: &[Vec<usize>],
    entry_points: &[usize],
    ef: usize,
    allowed_rows: usize,
    found: Vec<Neighbor>,
)
    requires
        dataset.wf(),
        call_ensures(
            search_layer::<M>,
            (math, dataset, metric, query, adjacency, entry_points, ef, allowed_rows),
            found,
        ),
    ensures
        searched(
            |row: usize| math.distance_of(metric, dataset@[row as int], query@),
            crate::dataset::contents(adjacency@),
            in_view(dataset@.len(), adjacency@.len(), allowed_rows as nat),
            entry_points@,
            if ef == 0 {
                1
            } else {
                ef as nat
            },
            found@,
        ),
{
    let edges = crate::dataset::contents(adjacency@);
    let walk = crate::graph::layer_walk(
        math,
        dataset@,
        metric,
        query@,
        edges,
        ef,
        allowed_rows,
    );
    let dist = |row: usize| math.distance_of(metric, dataset@[row as int], query@);
    lemma_searched(walk, dist, entry_points@);
}

/// A greedy descent moves to the nearest linked row for as long as that is nearer
/// to the query; it ends at a row that no linked row is nearer than, not farther
/// than where it began, and joined to it.
pub proof fn descending_a_layer_ends_at_a_local_minimum<M: VectorMath>(
    math: &M,
    dataset: &Dataset,
    metric: Metric,
    query: &[u32],
    adjacency: &[Vec<usize>],
    entry: usize,
    allowed_rows: usize,
    end: usize,
)
    requires
        dataset.wf(),
        call_ensures(
            greedy_search::<M>,
            (math, dataset, metric, query, adjacency, entry, allowed_rows),
            end,
        ),
    ensures
        ({
            let dist = |row: usize| math.distance_of(metric, dataset@[row as int], query@);
            let edges = crate::dataset::contents(adjacency@);
            let limit = in_view(dataset@.len(), adjacency@.len(), allowed_rows as nat);
            if entry < limit {
                &&& end < limit
                &&& local_minimum(dist, edges, limit, end)
                &&& !ahead(dist, entry, end)
                &&& joined(edges, limit, seq![entry], end)
                &&& slides(dist, edges, limit, entry, end)
            } else {
                end == entry
            }
        }),
{
    let edges = crate::dataset::contents(adjacency@);
    let walk = crate::graph::layer_walk(
        math,
        dataset@,
        metric,
        query@,
        edges,
        1,
        allowed_rows,
    );
    let dist = |row: usize| math.distance_of(metric, dataset@[row as int], query@);
    if entry < walk.limit {
        lemma_descended(walk, dist, entry);
    }
}

/// Whether `row` is one of the first `most` that `found` names.
pub open spec fn chosen(found: Seq<Neighbor>, most: nat, row: usize) -> bool {
    exists|i: int| 0 <= i < found.len() && i < most && (#[trigger] found[i]).row == row
}

/// The links there are once `row` is linked both ways to the first `most` rows
/// that `found` names, before any is dropped.
pub open spec fn offered(
    before: Seq<Seq<usize>>,
    row: usize,
    found: Seq<Neighbor>,
    most: nat,
    a: usize,
    b: usize,
) -> bool {
    before[a as int].contains(b) || (a == row && chosen(found, most, b)) || (b == row && chosen(
        found,
        most,
        a,
    ))
}

/// Whether `rivals` are distinct rows offered to `owner` that are nearer to it
/// than `other`, by the distances `between` rows.
pub open spec fn rivals(
    between: spec_fn(usize, usize) -> u32,
    before: Seq<Seq<usize>>,
    row: usize,
    found: Seq<Neighbor>,
    most: nat,
    owner: usize,
    other: usize,
    rows: Seq<usize>,
) -> bool {
    &&& rows.no_duplicates()
    &&& forall|i: int|
        0 <= i < rows.len() ==> offered(before, row, found, most, owner, #[trigger] rows[i])
            && ahead(|x: usize| between(owner, x), rows[i], other)
}

/// Whether `owner`, which gained a link, is offered `most` rows nearer to it
/// than `other`.
pub open spec fn crowded_out(
    between: spec_fn(usize, usize) -> u32,
    before: Seq<Seq<usize>>,
    row: usize,
    found: Seq<Neighbor>,
    most: nat,
    owner: usize,
    other: usize,
) -> bool {
    &&& owner == row || chosen(found, most, owner)
    &&& exists|rows: Seq<usize>| #[trigger]
        rivals(between, before, row, found, most, owner, other, rows) && rows.len() == most
}

/// Whether `kept` are the nearest of the rows `offered` to `owner`, at most
/// `most`, nearest first, `owner` itself left out.
pub open spec fn keeps_nearest(
    dist: spec_fn(usize) -> u32,
    owner: usize,
    offered: Seq<usize>,
    most: nat,
    kept: Seq<usize>,
) -> bool {
    &&& kept.len() <= most
    &&& forall|i: int|
        0 <= i < kept.len() ==> offered.contains(#[trigger] kept[i]) && kept[i] != owner
    &&& forall|i: int, j: int|
        0 <= i < j < kept.len() ==> ahead(dist, #[trigger] kept[i], #[trigger] kept[j])
    &&& forall|x: usize| #[trigger]
        offered.contains(x) && x != owner && !kept.contains(x) ==> kept.len() == most
            && forall|i: int| 0 <= i < kept.len() ==> ahead(dist, #[trigger] kept[i], x)
}

/// Whether `after` is `before` with `owner` cut down to the `most` rows nearest to
/// it, and each row that it dropped without its link back.
pub open spec fn cut_down(
    between: spec_fn(usize, usize) -> u32,
    before: Seq<Seq<usize>>,
    after: Seq<Seq<usize>>,
    owner: usize,
    most: nat,
) -> bool {
    &&& after.len() == before.len()
    &&& keeps_nearest(
        |x: usize| between(owner, x),
        owner,
        before[owner as int],
        most,
        after[owner as int],
    )
    &&& forall|a: usize, b: usize|
        a < before.len() && a != owner ==> (#[trigger] after[a as int].contains(b)
            <==> before[a as int].contains(b) && (b == owner
            ==> after[owner as int].contains(a)))
}

/// The rows that gain a link: the first `most` that `found` names, in their
/// order, then `row`.
pub open spec fn gaining(found: Seq<Neighbor>, most: nat, row: usize) -> Seq<usize> {
    Seq::new(
        if most < found.len() {
            most
        } else {
            found.len()
        },
        |i: int| found[i].row,
    ).push(row)
}

/// Whether `stages` lead from all links offered to `after`, each row that gained
/// a link cut down in its turn.
pub open spec fn cut_down_in_turn(
    between: spec_fn(usize, usize) -> u32,
    before: Seq<Seq<usize>>,
    after: Seq<Seq<usize>>,
    row: usize,
    found: Seq<Neighbor>,
    most: nat,
    stages: Seq<Seq<Seq<usize>>>,
) -> bool {
    let owners = gaining(found, most, row);
    &&& stages.len() == owners.len() + 1
    &&& stages[0].len() == before.len()
    &&& forall|a: usize, b: usize|
        a < before.len() && b < before.len() ==> (#[trigger] stages[0][a as int].contains(b)
            <==> offered(before, row, found, most, a, b))
    &&& forall|i: int|
        0 <= i < owners.len() ==> cut_down(
            between,
            #[trigger] stages[i],
            stages[i + 1],
            owners[i],
            most,
        )
    &&& stages.last() == after
}

/// Whether `after` is `before` with `row` linked to the first `most` rows that
/// `found` names: no link but those offered, the rows that gained one cut down in
/// turn to the nearest, and one offered is missing only
/// where a row at its ends is crowded.
pub open spec fn linked_in(
    between: spec_fn(usize, usize) -> u32,
    before: Seq<Seq<usize>>,
    after: Seq<Seq<usize>>,
    row: usize,
    found: Seq<Neighbor>,
    most: nat,
) -> bool {
    &&& after.len() == before.len()
    &&& forall|a: usize, b: usize|
        a < before.len() && b < before.len() && #[trigger] after[a as int].contains(b) ==> offered(
            before,
            row,
            found,
            most,
            a,
            b,
        )
    &&& forall|a: usize, b: usize|
        a < before.len() && b < before.len() && offered(before, row, found, most, a, b)
            && !#[trigger] after[a as int].contains(b) ==> crowded_out(
            between,
            before,
            row,
            found,
            most,
            a,
            b,
        ) || crowded_out(between, before, row, found, most, b, a)
    &&& exists|stages: Seq<Seq<Seq<usize>>>| #[trigger]
        cut_down_in_turn(between, before, after, row, found, most, stages)
}

/// Pruning one row, said of distances and links.
proof fn lemma_cut_down(
    space: spec_fn(usize, usize) -> Neighbor,
    between: spec_fn(usize, usize) -> u32,
    edges: Seq<Seq<usize>>,
    owner: usize,
    most: nat,
)
    requires
        space_by(space, between),
        crate::links::sound(edges, edges.len()),
        owner < edges.len(),
    ensures
        cut_down(between, edges, crate::links::settle(space, edges, owner, most), owner, most),
        crate::links::sound(
            crate::links::settle(space, edges, owner, most),
            edges.len(),
        ),
{
    let previous = edges[owner as int];
    let kept = crate::graph::pruned(space, owner, previous, most);
    let first = edges.update(owner as int, kept);
    let after = crate::links::settle(space, edges, owner, most);
    assert forall|a: usize, b: usize| (#[trigger] space(a, b)).row == b by {}
    crate::links::lemma_settle(space, edges, owner, most);
    lemma_keeps_nearest(space, between, owner, previous, most);
    assert(edges[owner as int].no_duplicates() && !edges[owner as int].contains(owner));
    assert forall|i: int| 0 <= i < previous.len() implies (#[trigger] previous[i])
        < edges.len() by {
        assert(edges[owner as int][i] < edges.len());
    }
    crate::links::lemma_cut_back(space, first, owner, previous);
    assert(after[owner as int] == kept);
    assert forall|a: usize, b: usize| a < edges.len() && a != owner implies (#[trigger] after[
        a as int
    ].contains(b) <==> edges[a as int].contains(b) && (b == owner ==> after[
        owner as int
    ].contains(a))) by {
        assert(edges[a as int].contains(owner) <==> edges[owner as int].contains(a));
        if previous.contains(a) && !kept.contains(a) {
            assert(after[a as int].contains(b) <==> b != owner && first[a as int].contains(b));
        } else {
            assert(after[a as int] == first[a as int]);
        }
    }
}

/// The links that pruning keeps, said of distances.
pub proof fn lemma_keeps_nearest(
    space: spec_fn(usize, usize) -> Neighbor,
    between: spec_fn(usize, usize) -> u32,
    owner: usize,
    rows: Seq<usize>,
    most: nat,
)
    requires
        space_by(space, between),
    ensures
        keeps_nearest(
            |x: usize| between(owner, x),
            owner,
            rows,
            most,
            crate::graph::pruned(space, owner, rows, most),
        ),
{
    let kept = crate::graph::pruned(space, owner, rows, most);
    let dist = |x: usize| between(owner, x);
    assert forall|a: usize, b: usize| (#[trigger] space(a, b)).row == b by {}
    crate::graph::pruning_keeps_the_nearest(space, owner, rows, most);
    assert forall|i: int| 0 <= i < kept.len() implies rows.contains(#[trigger] kept[i]) && kept[i]
        != owner by {
        assert(kept.contains(kept[i]));
    }
    assert forall|i: int, j: int| 0 <= i < j < kept.len() implies ahead(
        dist,
        #[trigger] kept[i],
        #[trigger] kept[j],
    ) by {
        assert(crate::ranking::precedes(
            space(owner, kept[i]).rank(),
            space(owner, kept[j]).rank(),
        ));
    }
    assert forall|x: usize| #[trigger]
        rows.contains(x) && x != owner && !kept.contains(x) implies kept.len() == most
        && forall|i: int| 0 <= i < kept.len() ==> ahead(dist, #[trigger] kept[i], x) by {
        assert forall|i: int| 0 <= i < kept.len() implies ahead(dist, #[trigger] kept[i], x) by {
            assert(crate::ranking::precedes(
                space(owner, kept[i]).rank(),
                space(owner, x).rank(),
            ));
        }
    }
}

/// What is kept depends on the distances alone.
pub proof fn lemma_same_nearest(
    left: spec_fn(usize) -> u32,
    right: spec_fn(usize) -> u32,
    owner: usize,
    offered: Seq<usize>,
    most: nat,
    kept: Seq<usize>,
)
    requires
        forall|x: usize| #[trigger] left(x) == right(x),
        keeps_nearest(left, owner, offered, most, kept),
    ensures
        keeps_nearest(right, owner, offered, most, kept),
{
    assert forall|a: usize, b: usize| #[trigger] ahead(right, a, b) == ahead(left, a, b) by {
        assert(left(a) == right(a) && left(b) == right(b));
    }
}

/// Pruning rows in turn, stage by stage.
proof fn lemma_stages(
    space: spec_fn(usize, usize) -> Neighbor,
    between: spec_fn(usize, usize) -> u32,
    edges: Seq<Seq<usize>>,
    owners: Seq<usize>,
    most: nat,
) -> (stages: Seq<Seq<Seq<usize>>>)
    requires
        space_by(space, between),
        crate::links::sound(edges, edges.len()),
        forall|i: int| 0 <= i < owners.len() ==> (#[trigger] owners[i]) < edges.len(),
    ensures
        stages.len() == owners.len() + 1,
        stages[0] == edges,
        stages.last() == crate::links::settle_all(space, edges, owners, most),
        crate::links::sound(stages.last(), edges.len()),
        forall|i: int|
            0 <= i < owners.len() ==> cut_down(
                between,
                #[trigger] stages[i],
                stages[i + 1],
                owners[i],
                most,
            ),
    decreases owners.len(),
{
    if owners.len() == 0 {
        seq![edges]
    } else {
        let rest = owners.drop_last();
        assert forall|i: int| 0 <= i < rest.len() implies (#[trigger] rest[i]) < edges.len() by {
            assert(rest[i] == owners[i]);
        }
        let before = lemma_stages(space, between, edges, rest, most);
        let last = owners[owners.len() - 1];
        lemma_cut_down(space, between, before.last(), last, most);
        let stages = before.push(crate::links::settle_all(space, edges, owners, most));
        assert forall|i: int| 0 <= i < owners.len() implies cut_down(
            between,
            #[trigger] stages[i],
            stages[i + 1],
            owners[i],
            most,
        ) by {
            assert(stages[i] == before[i]);
            if i < rest.len() {
                assert(stages[i + 1] == before[i + 1]);
                assert(rest[i] == owners[i]);
            }
        }
        stages
    }
}

/// Whether `after` is `before` with `row` linked to the `most` nearest rows that
/// a search for it finds among the rows before it, entering at `entry` and
/// keeping `width`; `dist` is the distance of each row from the new one.
pub open spec fn inserted(
    dist: spec_fn(usize) -> u32,
    between: spec_fn(usize, usize) -> u32,
    before: Seq<Seq<usize>>,
    after: Seq<Seq<usize>>,
    row: usize,
    entry: usize,
    width: nat,
    most: nat,
) -> bool {
    exists|found: Seq<Neighbor>| #[trigger]
        searched(dist, before, row as nat, seq![entry], width, found) && linked_in(
            between,
            before,
            after,
            row,
            found,
            most,
        )
}

/// Whether links lead both ways, never back to their own row, are at most
/// `most` for each row, and stand nearest first.
pub open spec fn well_linked(
    between: spec_fn(usize, usize) -> u32,
    edges: Seq<Seq<usize>>,
    most: nat,
) -> bool {
    &&& forall|a: usize| a < edges.len() ==> (#[trigger] edges[a as int]).len() <= most
    &&& forall|a: usize, i: int|
        a < edges.len() && 0 <= i < edges[a as int].len() ==> (#[trigger] edges[a as int][i])
            < edges.len() && edges[a as int][i] != a
    &&& forall|a: usize, b: usize|
        a < edges.len() && b < edges.len() && #[trigger] edges[a as int].contains(b)
            ==> edges[b as int].contains(a)
    &&& forall|a: usize, i: int, j: int|
        #![trigger edges[a as int][i], edges[a as int][j]]
        a < edges.len() && 0 <= i < j < edges[a as int].len() ==> ahead(
            |x: usize| between(a, x),
            edges[a as int][i],
            edges[a as int][j],
        )
}

/// A space of neighbours by the distances `between` rows.
pub open spec fn space_by(
    space: spec_fn(usize, usize) -> Neighbor,
    between: spec_fn(usize, usize) -> u32,
) -> bool {
    forall|a: usize, b: usize|
        (#[trigger] space(a, b)) == (Neighbor { row: b, distance: between(a, b) })
}

pub proof fn lemma_well_linked(
    space: spec_fn(usize, usize) -> Neighbor,
    between: spec_fn(usize, usize) -> u32,
    edges: Seq<Seq<usize>>,
    most: nat,
)
    requires
        space_by(space, between),
        crate::links::sound(edges, edges.len()),
        crate::links::sparse(edges, most),
        crate::links::nearest_first(space, edges),
    ensures
        well_linked(between, edges, most),
{
    assert forall|a: usize, i: int|
        a < edges.len() && 0 <= i < edges[a as int].len() implies (#[trigger] edges[a as int][i])
        < edges.len() && edges[a as int][i] != a by {
        assert(!edges[a as int].contains(a));
        assert(edges[a as int].contains(edges[a as int][i]));
    }
    assert forall|a: usize, b: usize|
        a < edges.len() && b < edges.len() && #[trigger] edges[a as int].contains(
            b,
        ) implies edges[b as int].contains(a) by {
        assert(edges[a as int].contains(b) <==> edges[b as int].contains(a));
    }
    assert forall|a: usize, i: int, j: int|
        #![trigger edges[a as int][i], edges[a as int][j]]
        a < edges.len() && 0 <= i < j < edges[a as int].len() implies ahead(
        |x: usize| between(a, x),
        edges[a as int][i],
        edges[a as int][j],
    ) by {
        let links = edges[a as int];
        assert(crate::graph::strictly_nearer(space, a, links));
        assert(crate::ranking::precedes(
            space(a, links[i]).rank(),
            space(a, links[j]).rank(),
        ));
    }
}

/// Linking a row to what a walk finds, said of distances and links.
pub proof fn lemma_inserted(
    walk: Walk,
    dist: spec_fn(usize) -> u32,
    space: spec_fn(usize, usize) -> Neighbor,
    between: spec_fn(usize, usize) -> u32,
    row: usize,
    entry: usize,
    most: nat,
)
    requires
        walk_by(walk, dist),
        space_by(space, between),
        walk.limit == row,
        row < walk.edges.len(),
        crate::links::sound(walk.edges, walk.edges.len()),
        crate::links::sparse(walk.edges, most),
        walk.edges[row as int].len() == 0,
    ensures
        ({
            let selected = crate::ranking::first_few(
                crate::graph::rows_of(walk.search(seq![entry])),
                most,
            );
            inserted(
                dist,
                between,
                walk.edges,
                crate::links::linked(space, walk.edges, row, selected, most),
                row,
                entry,
                walk.width,
                most,
            )
        }),
{
    let before = walk.edges;
    let found = walk.search(seq![entry]);
    let selected = crate::ranking::first_few(crate::graph::rows_of(found), most);
    let after = crate::links::linked(space, before, row, selected, most);
    let grown = crate::links::with_edges(before, row, selected);
    assert forall|x: usize| (#[trigger] (walk.near)(x)).row == x by {}
    assert forall|a: usize, b: usize| (#[trigger] space(a, b)).row == b by {}
    lemma_searched(walk, dist, seq![entry]);
    crate::nsw::lemma_found_rows_are_eligible(walk, seq![entry], row, before.len(), most);
    crate::links::linking_keeps_the_graph_sound(space, before, row, selected, most);
    crate::links::linking_loses_links_only_to_nearer_rows(space, before, row, selected, most);
    assert forall|x: usize| selected.contains(x) <==> #[trigger] chosen(found, most, x) by {
        if selected.contains(x) {
            let i = choose|i: int| 0 <= i < selected.len() && selected[i] == x;
            assert(found[i].row == x);
        }
        if chosen(found, most, x) {
            let i = choose|i: int|
                0 <= i < found.len() && i < most && (#[trigger] found[i]).row == x;
            assert(selected[i] == x);
        }
    }
    assert forall|a: usize, b: usize|
        crate::links::joined_up(before, row, selected, a, b) <==> #[trigger] offered(
            before,
            row,
            found,
            most,
            a,
            b,
        ) by {
        assert(selected.contains(a) <==> chosen(found, most, a));
        assert(selected.contains(b) <==> chosen(found, most, b));
    }
    assert forall|owner: usize, other: usize|
        owner < before.len() && crate::links::crowded(space, grown, owner, other, most) && (owner
            == row || selected.contains(owner)) implies #[trigger] crowded_out(
        between,
        before,
        row,
        found,
        most,
        owner,
        other,
    ) by {
        let list = choose|list: Seq<usize>| #[trigger]
            crate::links::rivals_of(space, grown, owner, other, list) && list.len() == most;
        assert(chosen(found, most, owner) <==> selected.contains(owner));
        assert forall|i: int| 0 <= i < list.len() implies offered(
            before,
            row,
            found,
            most,
            owner,
            #[trigger] list[i],
        ) && ahead(|x: usize| between(owner, x), list[i], other) by {
            assert(grown[owner as int].contains(list[i]));
            lemma_grown_in_range(before, row, selected, owner, list[i]);
            assert(crate::links::joined_up(before, row, selected, owner, list[i]));
        }
        assert(rivals(between, before, row, found, most, owner, other, list));
    }
    assert forall|a: usize, b: usize|
        a < before.len() && b < before.len() && #[trigger] after[a as int].contains(
            b,
        ) implies offered(before, row, found, most, a, b) by {
        assert(crate::links::joined_up(before, row, selected, a, b));
    }
    assert forall|a: usize, b: usize|
        a < before.len() && b < before.len() && offered(before, row, found, most, a, b)
            && !#[trigger] after[a as int].contains(b) implies crowded_out(
        between,
        before,
        row,
        found,
        most,
        a,
        b,
    ) || crowded_out(between, before, row, found, most, b, a) by {
        assert(crate::links::joined_up(before, row, selected, a, b));
    }
    let owners = selected.push(row);
    assert forall|i: int| 0 <= i < owners.len() implies (#[trigger] owners[i])
        < before.len() by {
        if i < selected.len() {
            assert(owners[i] == selected[i]);
        }
    }
    crate::links::lemma_with_edges_sound(before, row, selected);
    let stages = lemma_stages(space, between, grown, owners, most);
    assert(owners =~= gaining(found, most, row));
    assert forall|a: usize, b: usize| a < before.len() && b < before.len() implies (
    #[trigger] stages[0][a as int].contains(b) <==> offered(before, row, found, most, a, b)) by {
        assert(grown[a as int].contains(b) <==> crate::links::joined_up(
            before,
            row,
            selected,
            a,
            b,
        ));
    }
    assert(cut_down_in_turn(between, before, after, row, found, most, stages));
    assert(linked_in(between, before, after, row, found, most));
}

proof fn lemma_grown_in_range(
    edges: Seq<Seq<usize>>,
    row: usize,
    selected: Seq<usize>,
    a: usize,
    b: usize,
)
    requires
        crate::links::sound(edges, edges.len()),
        crate::links::eligible(selected, row, edges.len()),
        edges[row as int].len() == 0,
        a < edges.len(),
        crate::links::with_edges(edges, row, selected)[a as int].contains(b),
    ensures
        b < edges.len(),
{
    crate::links::lemma_with_edges_sound(edges, row, selected);
    let grown = crate::links::with_edges(edges, row, selected);
    let i = choose|i: int| 0 <= i < grown[a as int].len() && grown[a as int][i] == b;
    assert(grown[a as int][i] < edges.len());
}

} // verus!
