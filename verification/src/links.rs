//! Linking a row into a graph.
//!
//! A new row is linked to some rows in both directions; then each row that
//! gained a link is pruned, and what it lost is cut from the other side too.

use vstd::prelude::*;

use crate::dataset::Dataset;
use crate::graph::prune_neighbors;
use crate::math::VectorMath;
use crate::ranking::Ranked;
use crate::seqs::{copied, holds, retain_others};
use crate::types::{Metric, Neighbor};

verus! {

/// `edges` with a link from `row` to `other` and one back.
pub open spec fn with_edge(edges: Seq<Seq<usize>>, row: usize, other: usize) -> Seq<Seq<usize>> {
    let there = edges.update(row as int, edges[row as int].push(other));
    there.update(other as int, there[other as int].push(row))
}

/// `edges` with links between `row` and each of `others`.
pub open spec fn with_edges(edges: Seq<Seq<usize>>, row: usize, others: Seq<usize>) -> Seq<
    Seq<usize>,
>
    decreases others.len(),
{
    if others.len() == 0 {
        edges
    } else {
        with_edge(with_edges(edges, row, others.drop_last()), row, others.last())
    }
}

/// `edges` with the links back to `owner` cut from those of `previous` that
/// `owner` is no longer linked to.
pub open spec fn cut_back(edges: Seq<Seq<usize>>, owner: usize, previous: Seq<usize>) -> Seq<
    Seq<usize>,
>
    decreases previous.len(),
{
    if previous.len() == 0 {
        edges
    } else {
        let cut = cut_back(edges, owner, previous.drop_last());
        let other = previous.last();
        if cut[owner as int].contains(other) {
            cut
        } else {
            cut.update(other as int, crate::seqs::without(cut[other as int], owner))
        }
    }
}

/// `edges` with the links of `owner` pruned, in both directions.
pub open spec fn settle(
    space: spec_fn(usize, usize) -> Neighbor,
    edges: Seq<Seq<usize>>,
    owner: usize,
    max_connections: nat,
) -> Seq<Seq<usize>> {
    let previous = edges[owner as int];
    cut_back(
        edges.update(owner as int, crate::graph::pruned(space, owner, previous, max_connections)),
        owner,
        previous,
    )
}

/// `edges` with the links of each of `owners` pruned in turn.
pub open spec fn settle_all(
    space: spec_fn(usize, usize) -> Neighbor,
    edges: Seq<Seq<usize>>,
    owners: Seq<usize>,
    max_connections: nat,
) -> Seq<Seq<usize>>
    decreases owners.len(),
{
    if owners.len() == 0 {
        edges
    } else {
        settle(
            space,
            settle_all(space, edges, owners.drop_last(), max_connections),
            owners.last(),
            max_connections,
        )
    }
}

/// `edges` with `row` linked to `selected`, and all of these rows pruned.
pub open spec fn linked(
    space: spec_fn(usize, usize) -> Neighbor,
    edges: Seq<Seq<usize>>,
    row: usize,
    selected: Seq<usize>,
    max_connections: nat,
) -> Seq<Seq<usize>> {
    settle_all(space, with_edges(edges, row, selected), selected.push(row), max_connections)
}

/// Whether links lead to rows below `rows` only.
pub open spec fn in_range(edges: Seq<Seq<usize>>, rows: nat) -> bool {
    forall|a: int, i: int|
        0 <= a < edges.len() && 0 <= i < edges[a].len() ==> (#[trigger] edges[a][i]) < rows
}

/// What holds of every graph built here: links stay in range, lead both ways,
/// never back to their own row, and no row is linked to another twice.
pub open spec fn sound(edges: Seq<Seq<usize>>, rows: nat) -> bool {
    &&& edges.len() == rows <= usize::MAX
    &&& in_range(edges, rows)
    &&& forall|a: usize|
        a < rows ==> (#[trigger] edges[a as int]).no_duplicates() && !edges[a as int].contains(a)
    &&& mutual(edges, rows)
}

/// Whether every link leads both ways.
pub open spec fn mutual(edges: Seq<Seq<usize>>, rows: nat) -> bool {
    forall|a: usize, b: usize|
        a < rows && b < rows ==> (#[trigger] edges[a as int].contains(b)
            <==> #[trigger] edges[b as int].contains(a))
}

/// Whether no row has more than `most` links.
pub open spec fn sparse(edges: Seq<Seq<usize>>, most: nat) -> bool {
    forall|a: int| 0 <= a < edges.len() ==> (#[trigger] edges[a]).len() <= most
}

/// Whether the links of every row stand in the order of their distance, nearest
/// first.
pub open spec fn nearest_first(
    space: spec_fn(usize, usize) -> Neighbor,
    edges: Seq<Seq<usize>>,
) -> bool {
    forall|a: usize|
        a < edges.len() ==> crate::graph::strictly_nearer(space, a, #[trigger] edges[a as int])
}

/// In a sound graph a row has fewer links than there are rows.
proof fn lemma_links_fit(edges: Seq<Seq<usize>>, row: usize)
    requires
        sound(edges, edges.len()),
        row < edges.len(),
    ensures
        edges[row as int].len() < edges.len(),
{
    let links = edges[row as int];
    assert(links.no_duplicates() && !links.contains(row));
    let all = links.push(row);
    assert forall|i: int| 0 <= i < all.len() implies (#[trigger] all[i]) < edges.len() by {
        if i < links.len() {
            assert(edges[row as int][i] < edges.len());
        }
    }
    assert forall|i: int, j: int|
        0 <= i < all.len() && 0 <= j < all.len() && i != j implies all[i] != all[j] by {
        assert(i < links.len() ==> links.contains(all[i]));
        assert(j < links.len() ==> links.contains(all[j]));
    }
    crate::seqs::lemma_distinct_rows_fit(all, edges.len());
}

/// Rows that a new row can be linked to: rows of the graph, each once, not the
/// new row itself.
pub open spec fn eligible(selected: Seq<usize>, row: usize, rows: nat) -> bool {
    &&& row < rows
    &&& selected.no_duplicates()
    &&& !selected.contains(row)
    &&& forall|i: int| 0 <= i < selected.len() ==> (#[trigger] selected[i]) < rows
}

proof fn lemma_with_edges(edges: Seq<Seq<usize>>, row: usize, selected: Seq<usize>)
    requires
        eligible(selected, row, edges.len()),
    ensures
        with_edges(edges, row, selected).len() == edges.len(),
        with_edges(edges, row, selected)[row as int] == edges[row as int] + selected,
        forall|b: usize|
            b < edges.len() && b != row ==> #[trigger] with_edges(edges, row, selected)[b as int]
                == (if selected.contains(b) {
                edges[b as int].push(row)
            } else {
                edges[b as int]
            }),
    decreases selected.len(),
{
    if selected.len() == 0 {
        assert(edges[row as int] + selected =~= edges[row as int]);
    } else {
        let rest = selected.drop_last();
        let last = selected.last();
        crate::seqs::lemma_drop_last_contains(selected);
        assert(!rest.contains(last)) by {
            if rest.contains(last) {
                let i = choose|i: int| 0 <= i < rest.len() && rest[i] == last;
                assert(selected[i] == selected[selected.len() - 1]);
            }
        }
        assert forall|i: int| 0 <= i < rest.len() implies (#[trigger] rest[i]) < edges.len() by {
            assert(rest[i] == selected[i]);
        }
        assert(rest.no_duplicates()) by {
            assert forall|i: int, j: int|
                0 <= i < rest.len() && 0 <= j < rest.len() && i != j implies rest[i]
                != rest[j] by {
                assert(rest[i] == selected[i] && rest[j] == selected[j]);
            }
        }
        lemma_with_edges(edges, row, rest);
        let before = with_edges(edges, row, rest);
        assert(selected.contains(last)) by {
            assert(selected[selected.len() - 1] == last);
        }
        assert(selected[selected.len() - 1] < edges.len());
        assert((edges[row as int] + rest).push(last) =~= edges[row as int] + selected);
        assert forall|b: usize| b < edges.len() && b != row implies #[trigger] with_edges(
            edges,
            row,
            selected,
        )[b as int] == (if selected.contains(b) {
            edges[b as int].push(row)
        } else {
            edges[b as int]
        }) by {
            assert(before[b as int] == (if rest.contains(b) {
                edges[b as int].push(row)
            } else {
                edges[b as int]
            }));
        }
    }
}

/// Linking an unlinked row keeps the graph sound.
pub proof fn lemma_with_edges_sound(edges: Seq<Seq<usize>>, row: usize, selected: Seq<usize>)
    requires
        sound(edges, edges.len()),
        eligible(selected, row, edges.len()),
        edges[row as int].len() == 0,
    ensures
        with_edges(edges, row, selected).len() == edges.len(),
        sound(with_edges(edges, row, selected), edges.len()),
{
    lemma_with_edges(edges, row, selected);
    let rows = edges.len();
    let after = with_edges(edges, row, selected);
    assert(after[row as int] =~= selected);
    assert forall|b: usize| b < rows implies !(#[trigger] edges[b as int].contains(row)) by {
        assert(edges[row as int].contains(b) <==> edges[b as int].contains(row));
    }
    // What each row is linked to now.
    assert forall|a: usize, x: usize| a < rows && a != row implies (#[trigger] after[
        a as int
    ].contains(x) <==> edges[a as int].contains(x) || (x == row && selected.contains(a))) by {
        crate::seqs::lemma_push_contains(edges[a as int], row);
        assert(edges[a as int].push(row).contains(x) <==> x == row || edges[a as int].contains(x));
    }
    assert(in_range(after, rows)) by {
        assert forall|a: int, i: int| 0 <= a < after.len() && 0 <= i < after[a].len() implies (
        #[trigger] after[a][i]) < rows by {
            if a == row {
                assert(after[a][i] == selected[i]);
            } else {
                let b = a as usize;
                assert(after[b as int] == after[a]);
                if i < edges[a].len() {
                    assert(after[a][i] == edges[a][i]);
                } else {
                    assert(after[a][i] == row);
                }
            }
        }
    }
    assert forall|a: usize| a < rows implies (#[trigger] after[a as int]).no_duplicates()
        && !after[a as int].contains(a) by {
        if a != row {
            assert(edges[a as int].no_duplicates() && !edges[a as int].contains(a));
            let now = after[a as int];
            assert forall|i: int, j: int|
                0 <= i < now.len() && 0 <= j < now.len() && i != j implies now[i] != now[j] by {
                let was = edges[a as int];
                if i < was.len() {
                    assert(now[i] == was[i]);
                    assert(was.contains(was[i]));
                }
                if j < was.len() {
                    assert(now[j] == was[j]);
                    assert(was.contains(was[j]));
                }
            }
            assert(after[a as int].contains(a) <==> edges[a as int].contains(a) || (a == row
                && selected.contains(a)));
        }
    }
    assert forall|a: usize, b: usize| a < rows && b < rows implies (#[trigger] after[
        a as int
    ].contains(b) <==> #[trigger] after[b as int].contains(a)) by {
        assert(edges[a as int].contains(b) <==> edges[b as int].contains(a));
        assert(!edges[a as int].contains(row));
        assert(!edges[b as int].contains(row));
    }
}

pub proof fn lemma_cut_back(
    space: spec_fn(usize, usize) -> Neighbor,
    edges: Seq<Seq<usize>>,
    owner: usize,
    previous: Seq<usize>,
)
    requires
        owner < edges.len(),
        !previous.contains(owner),
        forall|i: int| 0 <= i < previous.len() ==> (#[trigger] previous[i]) < edges.len(),
    ensures
        cut_back(edges, owner, previous).len() == edges.len(),
        cut_back(edges, owner, previous)[owner as int] == edges[owner as int],
        forall|b: usize|
            b < edges.len() && b != owner && !(previous.contains(b) && !edges[
                owner as int
            ].contains(b)) ==> #[trigger] cut_back(edges, owner, previous)[b as int]
                == edges[b as int],
        forall|b: usize, x: usize|
            b < edges.len() && previous.contains(b) && !edges[owner as int].contains(b) ==> (
            #[trigger] cut_back(edges, owner, previous)[b as int].contains(x) <==> x != owner
                && edges[b as int].contains(x)),
        forall|b: usize|
            b < edges.len() && edges[b as int].no_duplicates() ==> (#[trigger] cut_back(
                edges,
                owner,
                previous,
            )[b as int]).no_duplicates(),
        forall|b: usize|
            b < edges.len() ==> (#[trigger] cut_back(edges, owner, previous)[b as int]).len()
                <= edges[b as int].len(),
        forall|b: usize|
            b < edges.len() && crate::graph::strictly_nearer(space, b, edges[b as int])
                ==> crate::graph::strictly_nearer(
                space,
                b,
                #[trigger] cut_back(edges, owner, previous)[b as int],
            ),
    decreases previous.len(),
{
    if previous.len() > 0 {
        let rest = previous.drop_last();
        let last = previous.last();
        crate::seqs::lemma_drop_last_contains(previous);
        assert forall|i: int| 0 <= i < rest.len() implies (#[trigger] rest[i]) < edges.len() by {
            assert(rest[i] == previous[i]);
        }
        lemma_cut_back(space, edges, owner, rest);
        let before = cut_back(edges, owner, rest);
        assert(previous[previous.len() - 1] == last);
        assert(previous.contains(last));
        crate::seqs::lemma_without(before[last as int], owner);
        let after = cut_back(edges, owner, previous);
        assert forall|b: usize|
            b < edges.len() && crate::graph::strictly_nearer(
                space,
                b,
                edges[b as int],
            ) implies crate::graph::strictly_nearer(space, b, #[trigger] after[b as int]) by {
            assert(crate::graph::strictly_nearer(space, b, before[b as int]));
            if b == last {
                crate::graph::lemma_without_ascends(space, b, before[b as int], owner);
            }
        }
        assert forall|b: usize, x: usize|
            b < edges.len() && previous.contains(b) && !edges[owner as int].contains(b) implies (
        #[trigger] after[b as int].contains(x) <==> x != owner && edges[b as int].contains(
            x,
        )) by {
            assert(rest.contains(b) ==> (before[b as int].contains(x) <==> x != owner && edges[
                b as int
            ].contains(x)));
            if !rest.contains(b) {
                assert(before[b as int] == edges[b as int]);
            }
        }
    }
}

/// Pruning one row of a sound graph: the row keeps its nearest links, and the
/// graph stays sound.
pub proof fn lemma_settle(
    space: spec_fn(usize, usize) -> Neighbor,
    edges: Seq<Seq<usize>>,
    owner: usize,
    max_connections: nat,
)
    requires
        crate::graph::names_rows(space),
        sound(edges, edges.len()),
        owner < edges.len(),
    ensures
        sound(settle(space, edges, owner, max_connections), edges.len()),
        settle(space, edges, owner, max_connections)[owner as int].len() <= max_connections,
        forall|b: usize|
            b < edges.len() ==> (#[trigger] settle(space, edges, owner, max_connections)[
                b as int
            ]).len() <= edges[b as int].len(),
        forall|a: usize, b: usize|
            a < edges.len() && #[trigger] settle(space, edges, owner, max_connections)[
                a as int
            ].contains(b) ==> edges[a as int].contains(b),
        edges.len() <= max_connections + 1 ==> forall|a: usize, b: usize|
            a < edges.len() && edges[a as int].contains(b) ==> #[trigger] settle(
                space,
                edges,
                owner,
                max_connections,
            )[a as int].contains(b),
        crate::graph::strictly_nearer(
            space,
            owner,
            settle(space, edges, owner, max_connections)[owner as int],
        ),
        forall|b: usize|
            b < edges.len() && crate::graph::strictly_nearer(space, b, edges[b as int])
                ==> crate::graph::strictly_nearer(
                space,
                b,
                #[trigger] settle(space, edges, owner, max_connections)[b as int],
            ),
{
    let rows = edges.len();
    let previous = edges[owner as int];
    let kept = crate::graph::pruned(space, owner, previous, max_connections);
    let first = edges.update(owner as int, kept);
    let after = settle(space, edges, owner, max_connections);
    assert(edges[owner as int].no_duplicates() && !edges[owner as int].contains(owner));
    assert forall|i: int| 0 <= i < previous.len() implies (#[trigger] previous[i]) < rows by {
        assert(edges[owner as int][i] < rows);
    }
    crate::graph::pruning_keeps_the_nearest(space, owner, previous, max_connections);
    lemma_cut_back(space, first, owner, previous);
    crate::seqs::lemma_distinct_part(kept, previous);
    assert forall|a: usize, x: usize| a < rows && a != owner implies (#[trigger] after[
        a as int
    ].contains(x) <==> edges[a as int].contains(x) && !(x == owner && previous.contains(a)
        && !kept.contains(a))) by {
        if previous.contains(a) && !kept.contains(a) {
            assert(after[a as int].contains(x) <==> x != owner && first[a as int].contains(x));
        } else {
            assert(after[a as int] == first[a as int]);
        }
    }
    assert(after[owner as int] == kept);
    assert forall|a: usize, b: usize| a < rows && #[trigger] after[a as int].contains(
        b,
    ) implies edges[a as int].contains(b) by {
        if a == owner {
            assert(kept.contains(b));
        }
    }
    if rows <= max_connections + 1 {
        lemma_links_fit(edges, owner);
        assert forall|x: usize| previous.contains(x) implies kept.contains(x) by {
            if !kept.contains(x) {
                assert(kept.len() == previous.len());
            }
        }
        assert forall|a: usize, b: usize|
            a < rows && edges[a as int].contains(b) implies #[trigger] after[a as int].contains(
            b,
        ) by {}
    }
    assert forall|b: usize|
        b < rows && crate::graph::strictly_nearer(
            space,
            b,
            edges[b as int],
        ) implies crate::graph::strictly_nearer(space, b, #[trigger] after[b as int]) by {
        if b != owner {
            assert(first[b as int] == edges[b as int]);
        }
    }
    assert(in_range(after, rows)) by {
        assert forall|a: int, i: int| 0 <= a < after.len() && 0 <= i < after[a].len() implies (
        #[trigger] after[a][i]) < rows by {
            let b = a as usize;
            assert(after[b as int].contains(after[a][i]));
            assert(edges[b as int].contains(after[a][i]));
            let j = choose|j: int| 0 <= j < edges[a].len() && edges[a][j] == after[a][i];
            assert(edges[a][j] < rows);
        }
    }
    assert forall|a: usize| a < rows implies (#[trigger] after[a as int]).no_duplicates()
        && !after[a as int].contains(a) by {
        assert(edges[a as int].no_duplicates() && !edges[a as int].contains(a));
        assert(first[a as int].no_duplicates());
        if after[a as int].contains(a) {
            assert(edges[a as int].contains(a));
        }
    }
    assert forall|a: usize, b: usize| a < rows && b < rows implies (#[trigger] after[
        a as int
    ].contains(b) <==> #[trigger] after[b as int].contains(a)) by {
        assert(edges[a as int].contains(b) <==> edges[b as int].contains(a));
        if a == owner {
            assert(kept.contains(b) ==> previous.contains(b));
        }
        if b == owner {
            assert(kept.contains(a) ==> previous.contains(a));
        }
    }
    assert forall|b: usize| b < rows implies (#[trigger] after[b as int]).len() <= edges[
        b as int
    ].len() by {
        assert(after[b as int].len() <= first[b as int].len());
    }
}

/// Pruning several rows of a sound graph in turn.
proof fn lemma_settle_all(
    space: spec_fn(usize, usize) -> Neighbor,
    edges: Seq<Seq<usize>>,
    owners: Seq<usize>,
    max_connections: nat,
)
    requires
        crate::graph::names_rows(space),
        sound(edges, edges.len()),
        forall|i: int| 0 <= i < owners.len() ==> (#[trigger] owners[i]) < edges.len(),
    ensures
        sound(settle_all(space, edges, owners, max_connections), edges.len()),
        forall|b: usize|
            b < edges.len() ==> (#[trigger] settle_all(space, edges, owners, max_connections)[
                b as int
            ]).len() <= edges[b as int].len(),
        forall|b: usize|
            b < edges.len() && owners.contains(b) ==> (#[trigger] settle_all(
                space,
                edges,
                owners,
                max_connections,
            )[b as int]).len() <= max_connections,
        forall|a: usize, b: usize|
            a < edges.len() && #[trigger] settle_all(space, edges, owners, max_connections)[
                a as int
            ].contains(b) ==> edges[a as int].contains(b),
        edges.len() <= max_connections + 1 ==> forall|a: usize, b: usize|
            a < edges.len() && edges[a as int].contains(b) ==> #[trigger] settle_all(
                space,
                edges,
                owners,
                max_connections,
            )[a as int].contains(b),
        forall|b: usize|
            b < edges.len() && (owners.contains(b) || crate::graph::strictly_nearer(
                space,
                b,
                edges[b as int],
            )) ==> crate::graph::strictly_nearer(
                space,
                b,
                #[trigger] settle_all(space, edges, owners, max_connections)[b as int],
            ),
    decreases owners.len(),
{
    if owners.len() > 0 {
        let rest = owners.drop_last();
        let last = owners.last();
        crate::seqs::lemma_drop_last_contains(owners);
        assert(owners[owners.len() - 1] == last);
        assert forall|i: int| 0 <= i < rest.len() implies (#[trigger] rest[i]) < edges.len() by {
            assert(rest[i] == owners[i]);
        }
        lemma_settle_all(space, edges, rest, max_connections);
        let before = settle_all(space, edges, rest, max_connections);
        lemma_settle(space, before, last, max_connections);
        let after = settle_all(space, edges, owners, max_connections);
        assert(after == settle(space, before, last, max_connections));
        assert forall|b: usize| b < edges.len() implies (#[trigger] after[b as int]).len()
            <= edges[b as int].len() by {
            assert(after[b as int].len() <= before[b as int].len());
        }
        assert forall|b: usize| b < edges.len() && owners.contains(b) implies (#[trigger] after[
            b as int
        ]).len() <= max_connections by {
            assert(after[b as int].len() <= before[b as int].len());
            if b != last {
                assert(before[b as int].len() <= max_connections);
            }
        }
        assert forall|a: usize, b: usize| a < edges.len() && #[trigger] after[a as int].contains(
            b,
        ) implies edges[a as int].contains(b) by {
            assert(before[a as int].contains(b));
        }
        if edges.len() <= max_connections + 1 {
            assert forall|a: usize, b: usize|
                a < edges.len() && edges[a as int].contains(b) implies #[trigger] after[
                a as int
            ].contains(b) by {
                assert(before[a as int].contains(b));
            }
        }
        assert forall|b: usize|
            b < edges.len() && (owners.contains(b) || crate::graph::strictly_nearer(
                space,
                b,
                edges[b as int],
            )) implies crate::graph::strictly_nearer(space, b, #[trigger] after[b as int]) by {
            if b != last {
                assert(crate::graph::strictly_nearer(space, b, before[b as int]));
            }
        }
    }
}

/// Whether `owner` has `most` links to rows nearer to it than `other`.
pub open spec fn crowded(
    space: spec_fn(usize, usize) -> Neighbor,
    edges: Seq<Seq<usize>>,
    owner: usize,
    other: usize,
    most: nat,
) -> bool {
    exists|rivals: Seq<usize>| #[trigger]
        rivals_of(space, edges, owner, other, rivals) && rivals.len() == most
}

/// Whether `rivals` are distinct rows linked from `owner` that are nearer to it
/// than `other`.
pub open spec fn rivals_of(
    space: spec_fn(usize, usize) -> Neighbor,
    edges: Seq<Seq<usize>>,
    owner: usize,
    other: usize,
    rivals: Seq<usize>,
) -> bool {
    &&& rivals.no_duplicates()
    &&& forall|i: int|
        0 <= i < rivals.len() ==> edges[owner as int].contains(#[trigger] rivals[i])
            && crate::ranking::precedes(
            space(owner, rivals[i]).rank(),
            space(owner, other).rank(),
        )
}

/// Pruning one row loses a link only where the row has as many as it may keep
/// that are nearer.
proof fn lemma_settle_loses(
    space: spec_fn(usize, usize) -> Neighbor,
    edges: Seq<Seq<usize>>,
    owner: usize,
    max_connections: nat,
)
    requires
        crate::graph::names_rows(space),
        sound(edges, edges.len()),
        owner < edges.len(),
    ensures
        forall|a: usize, b: usize|
            a < edges.len() && b < edges.len() && edges[a as int].contains(b)
                && !#[trigger] settle(space, edges, owner, max_connections)[a as int].contains(b)
                ==> (a == owner && crowded(space, edges, a, b, max_connections)) || (b == owner
                && crowded(space, edges, b, a, max_connections)),
{
    let rows = edges.len();
    let previous = edges[owner as int];
    let kept = crate::graph::pruned(space, owner, previous, max_connections);
    let first = edges.update(owner as int, kept);
    let after = settle(space, edges, owner, max_connections);
    assert(!edges[owner as int].contains(owner));
    assert forall|i: int| 0 <= i < previous.len() implies (#[trigger] previous[i]) < rows by {
        assert(edges[owner as int][i] < rows);
    }
    crate::graph::pruning_keeps_the_nearest(space, owner, previous, max_connections);
    lemma_cut_back(space, first, owner, previous);
    assert forall|x: usize| previous.contains(x) && !kept.contains(x) implies crowded(
        space,
        edges,
        owner,
        x,
        max_connections,
    ) by {
        assert(x != owner);
        assert forall|i: int| 0 <= i < kept.len() implies edges[owner as int].contains(
            #[trigger] kept[i],
        ) && crate::ranking::precedes(
            space(owner, kept[i]).rank(),
            space(owner, x).rank(),
        ) by {
            assert(kept.contains(kept[i]));
        }
        assert(rivals_of(space, edges, owner, x, kept));
    }
    assert forall|a: usize, b: usize|
        a < rows && b < rows && edges[a as int].contains(b) && !#[trigger] after[
            a as int
        ].contains(b) implies (a == owner && crowded(space, edges, a, b, max_connections)) || (b
        == owner && crowded(space, edges, b, a, max_connections)) by {
        if a != owner {
            assert(first[a as int] == edges[a as int]);
            assert(edges[a as int].contains(b) <==> edges[b as int].contains(a));
            if previous.contains(a) && !kept.contains(a) {
                assert(after[a as int].contains(b) <==> b != owner && first[a as int].contains(
                    b,
                ));
            } else {
                assert(after[a as int] == first[a as int]);
            }
        }
    }
}

/// Pruning several rows loses a link only where one of them has as many as it
/// may keep that are nearer.
proof fn lemma_settle_all_loses(
    space: spec_fn(usize, usize) -> Neighbor,
    edges: Seq<Seq<usize>>,
    owners: Seq<usize>,
    max_connections: nat,
)
    requires
        crate::graph::names_rows(space),
        sound(edges, edges.len()),
        forall|i: int| 0 <= i < owners.len() ==> (#[trigger] owners[i]) < edges.len(),
    ensures
        forall|a: usize, b: usize|
            a < edges.len() && b < edges.len() && edges[a as int].contains(b)
                && !#[trigger] settle_all(space, edges, owners, max_connections)[
                a as int
            ].contains(b) ==> (owners.contains(a) && crowded(
                space,
                edges,
                a,
                b,
                max_connections,
            )) || (owners.contains(b) && crowded(space, edges, b, a, max_connections)),
    decreases owners.len(),
{
    if owners.len() > 0 {
        let rest = owners.drop_last();
        let last = owners.last();
        crate::seqs::lemma_drop_last_contains(owners);
        assert(owners[owners.len() - 1] == last);
        assert forall|i: int| 0 <= i < rest.len() implies (#[trigger] rest[i]) < edges.len() by {
            assert(rest[i] == owners[i]);
        }
        lemma_settle_all(space, edges, rest, max_connections);
        lemma_settle_all_loses(space, edges, rest, max_connections);
        let before = settle_all(space, edges, rest, max_connections);
        lemma_settle_loses(space, before, last, max_connections);
        let after = settle_all(space, edges, owners, max_connections);
        assert(after == settle(space, before, last, max_connections));
        assert forall|a: usize, b: usize|
            a < edges.len() && crowded(space, before, a, b, max_connections) implies crowded(
            space,
            edges,
            a,
            b,
            max_connections,
        ) by {
            let rivals = choose|rivals: Seq<usize>| #[trigger]
                rivals_of(space, before, a, b, rivals) && rivals.len() == max_connections;
            assert forall|i: int| 0 <= i < rivals.len() implies edges[a as int].contains(
                #[trigger] rivals[i],
            ) by {
                assert(before[a as int].contains(rivals[i]));
            }
            assert(rivals_of(space, edges, a, b, rivals));
        }
        assert forall|a: usize, b: usize|
            a < edges.len() && b < edges.len() && edges[a as int].contains(b) && !#[trigger] after[
                a as int
            ].contains(b) implies (owners.contains(a) && crowded(
            space,
            edges,
            a,
            b,
            max_connections,
        )) || (owners.contains(b) && crowded(space, edges, b, a, max_connections)) by {
            if before[a as int].contains(b) {
                assert((a == last && crowded(space, before, a, b, max_connections)) || (b == last
                    && crowded(space, before, b, a, max_connections)));
            } else {
                assert(!before[a as int].contains(b));
            }
        }
    }
}

/// The links once `row` is linked to `selected`, before any is pruned.
pub open spec fn joined_up(
    edges: Seq<Seq<usize>>,
    row: usize,
    selected: Seq<usize>,
    a: usize,
    b: usize,
) -> bool {
    edges[a as int].contains(b) || (a == row && selected.contains(b)) || (b == row
        && selected.contains(a))
}

/// Linking a row in makes a link between it and each row selected and keeps
/// those there were, but for links that the row or a row selected loses because
/// it has as many as it may keep to rows nearer to it.
pub proof fn linking_loses_links_only_to_nearer_rows(
    space: spec_fn(usize, usize) -> Neighbor,
    edges: Seq<Seq<usize>>,
    row: usize,
    selected: Seq<usize>,
    max_connections: nat,
)
    requires
        crate::graph::names_rows(space),
        sound(edges, edges.len()),
        eligible(selected, row, edges.len()),
        edges[row as int].len() == 0,
    ensures
        ({
            let after = linked(space, edges, row, selected, max_connections);
            let grown = with_edges(edges, row, selected);
            &&& after.len() == edges.len()
            &&& forall|a: usize, b: usize|
                a < edges.len() && b < edges.len() ==> (#[trigger] grown[a as int].contains(b)
                    <==> joined_up(edges, row, selected, a, b))
            &&& forall|a: usize, b: usize|
                a < edges.len() && b < edges.len() && joined_up(edges, row, selected, a, b)
                    && !#[trigger] after[a as int].contains(b) ==> ((a == row || selected.contains(
                    a,
                )) && crowded(space, grown, a, b, max_connections)) || ((b == row
                    || selected.contains(b)) && crowded(space, grown, b, a, max_connections))
        }),
{
    let grown = with_edges(edges, row, selected);
    let owners = selected.push(row);
    lemma_with_edges(edges, row, selected);
    lemma_with_edges_sound(edges, row, selected);
    crate::seqs::lemma_push_contains(selected, row);
    assert forall|i: int| 0 <= i < owners.len() implies (#[trigger] owners[i])
        < grown.len() by {
        if i < selected.len() {
            assert(owners[i] == selected[i]);
        }
    }
    lemma_settle_all(space, grown, owners, max_connections);
    lemma_settle_all_loses(space, grown, owners, max_connections);
    let after = linked(space, edges, row, selected, max_connections);
    assert forall|a: usize, b: usize| a < edges.len() && b < edges.len() implies (
    #[trigger] grown[a as int].contains(b) <==> joined_up(edges, row, selected, a, b)) by {
        if a == row {
            assert(grown[a as int] =~= selected);
            assert(!edges[a as int].contains(b));
        } else {
            crate::seqs::lemma_push_contains(edges[a as int], row);
            assert(edges[a as int].push(row).contains(b) <==> b == row || edges[
                a as int
            ].contains(b));
        }
    }
    assert forall|a: usize, b: usize|
        a < edges.len() && b < edges.len() && joined_up(edges, row, selected, a, b)
            && !#[trigger] after[a as int].contains(b) implies ((a == row || selected.contains(a))
        && crowded(space, grown, a, b, max_connections)) || ((b == row || selected.contains(b))
        && crowded(space, grown, b, a, max_connections)) by {
        assert(grown[a as int].contains(b));
    }
}

/// Linking a row in keeps a graph sound, no row over its limit and links in
/// their order, and makes no link but between the row and the rows selected.
/// Where no row can have more links than it may keep, all of these are made and
/// no link is lost.
pub proof fn linking_keeps_the_graph_sound(
    space: spec_fn(usize, usize) -> Neighbor,
    edges: Seq<Seq<usize>>,
    row: usize,
    selected: Seq<usize>,
    max_connections: nat,
)
    requires
        crate::graph::names_rows(space),
        sound(edges, edges.len()),
        sparse(edges, max_connections),
        eligible(selected, row, edges.len()),
        edges[row as int].len() == 0,
    ensures
        sound(linked(space, edges, row, selected, max_connections), edges.len()),
        sparse(linked(space, edges, row, selected, max_connections), max_connections),
        forall|a: usize, b: usize|
            a < edges.len() && #[trigger] linked(space, edges, row, selected, max_connections)[
                a as int
            ].contains(b) ==> edges[a as int].contains(b) || (a == row && selected.contains(b))
                || (b == row && selected.contains(a)),
        edges.len() <= max_connections + 1 ==> forall|a: usize, b: usize|
            a < edges.len() && (edges[a as int].contains(b) || (a == row && selected.contains(b))
                || (b == row && selected.contains(a))) ==> #[trigger] linked(
                space,
                edges,
                row,
                selected,
                max_connections,
            )[a as int].contains(b),
        nearest_first(space, edges) ==> nearest_first(
            space,
            linked(space, edges, row, selected, max_connections),
        ),
{
    let grown = with_edges(edges, row, selected);
    let owners = selected.push(row);
    lemma_with_edges(edges, row, selected);
    lemma_with_edges_sound(edges, row, selected);
    crate::seqs::lemma_push_contains(selected, row);
    assert forall|i: int| 0 <= i < owners.len() implies (#[trigger] owners[i])
        < grown.len() by {
        if i < selected.len() {
            assert(owners[i] == selected[i]);
        }
    }
    lemma_settle_all(space, grown, owners, max_connections);
    let after = linked(space, edges, row, selected, max_connections);
    assert forall|a: int| 0 <= a < after.len() implies (#[trigger] after[a]).len()
        <= max_connections by {
        let b = a as usize;
        if owners.contains(b) {
            assert(after[b as int].len() <= max_connections);
        } else {
            assert(after[b as int].len() <= grown[b as int].len());
            assert(grown[b as int] == edges[b as int]);
            assert(edges[a].len() <= max_connections);
        }
    }
    assert forall|a: usize, b: usize| a < edges.len() && #[trigger] after[a as int].contains(
        b,
    ) implies edges[a as int].contains(b) || (a == row && selected.contains(b)) || (b == row
        && selected.contains(a)) by {
        assert(grown[a as int].contains(b));
        if a == row {
            assert(grown[a as int] =~= selected);
        } else {
            crate::seqs::lemma_push_contains(edges[a as int], row);
            assert(edges[a as int].push(row).contains(b) <==> b == row || edges[
                a as int
            ].contains(b));
        }
    }
    if edges.len() <= max_connections + 1 {
        assert forall|a: usize, b: usize|
            a < edges.len() && (edges[a as int].contains(b) || (a == row && selected.contains(b))
                || (b == row && selected.contains(a))) implies #[trigger] after[
            a as int
        ].contains(b) by {
            if a == row {
                assert(grown[a as int] =~= selected);
            } else {
                crate::seqs::lemma_push_contains(edges[a as int], row);
                assert(edges[a as int].push(row).contains(b) <==> b == row || edges[
                    a as int
                ].contains(b));
            }
            assert(grown[a as int].contains(b));
        }
    }
    if nearest_first(space, edges) {
        assert forall|a: usize| a < after.len() implies crate::graph::strictly_nearer(
            space,
            a,
            #[trigger] after[a as int],
        ) by {
            if !owners.contains(a) {
                assert(grown[a as int] == edges[a as int]);
                assert(crate::graph::strictly_nearer(space, a, edges[a as int]));
            }
        }
    }
}

/// Prunes the links of `owner`, in both directions.
fn settle_row<M: VectorMath>(
    math: &M,
    dataset: &Dataset,
    metric: Metric,
    adjacency: &mut Vec<Vec<usize>>,
    owner: usize,
    max_connections: usize,
)
    requires
        crate::math::lawful(math),
        sound(crate::dataset::contents(old(adjacency)@), dataset@.len()),
        owner < dataset@.len(),
    ensures
        crate::dataset::contents(final(adjacency)@) == settle(
            crate::graph::row_space(math, metric, dataset@),
            crate::dataset::contents(old(adjacency)@),
            owner,
            max_connections as nat,
        ),
{
    let ghost space = crate::graph::row_space(math, metric, dataset@);
    let ghost edges = crate::dataset::contents(adjacency@);
    let previous = copied(adjacency[owner].as_slice());
    assert(previous@ == edges[owner as int]);
    assert forall|i: int| 0 <= i < previous@.len() implies (#[trigger] previous@[i])
        < dataset@.len() by {
        assert(edges[owner as int][i] < dataset@.len());
    }
    assert(!edges[owner as int].contains(owner));
    let mut links = copied(previous.as_slice());
    prune_neighbors(math, dataset, metric, owner, &mut links, max_connections);
    adjacency[owner] = links;
    let ghost first = edges.update(
        owner as int,
        crate::graph::pruned(space, owner, edges[owner as int], max_connections as nat),
    );
    assert(crate::dataset::contents(adjacency@) =~= first);
    assert(previous@.take(0) =~= Seq::<usize>::empty());
    for i in 0..previous.len()
        invariant
            owner < first.len(),
            first.len() == dataset@.len(),
            adjacency@.len() == first.len(),
            !previous@.contains(owner),
            forall|j: int| 0 <= j < previous@.len() ==> (#[trigger] previous@[j]) < first.len(),
            crate::dataset::contents(adjacency@) == cut_back(
                first,
                owner,
                previous@.take(i as int),
            ),
    {
        let other: usize = previous[i];
        assert(previous@.take(i + 1).drop_last() =~= previous@.take(i as int));
        let ghost before = crate::dataset::contents(adjacency@);
        assert(before[owner as int] == adjacency@[owner as int]@);
        assert(before[other as int] == adjacency@[other as int]@);
        if !holds(adjacency[owner].as_slice(), other) {
            let others = retain_others(adjacency[other].as_slice(), owner);
            adjacency[other] = others;
            assert(crate::dataset::contents(adjacency@) =~= before.update(
                other as int,
                crate::seqs::without(before[other as int], owner),
            ));
        }
    }
    assert(previous@.take(previous@.len() as int) =~= previous@);
}

/// Links `row` to `selected` and prunes all of these rows to
/// `max_connections` links.
pub fn link_row<M: VectorMath>(
    math: &M,
    dataset: &Dataset,
    metric: Metric,
    adjacency: &mut Vec<Vec<usize>>,
    row: usize,
    selected: Vec<usize>,
    max_connections: usize,
)
    requires
        crate::math::lawful(math),
        sound(crate::dataset::contents(old(adjacency)@), dataset@.len()),
        sparse(crate::dataset::contents(old(adjacency)@), max_connections as nat),
        eligible(selected@, row, dataset@.len()),
        old(adjacency)@[row as int]@.len() == 0,
    ensures
        crate::dataset::contents(final(adjacency)@) == linked(
            crate::graph::row_space(math, metric, dataset@),
            crate::dataset::contents(old(adjacency)@),
            row,
            selected@,
            max_connections as nat,
        ),
        sound(crate::dataset::contents(final(adjacency)@), dataset@.len()),
        sparse(crate::dataset::contents(final(adjacency)@), max_connections as nat),
{
    let ghost space = crate::graph::row_space(math, metric, dataset@);
    let ghost edges = crate::dataset::contents(adjacency@);
    assert(edges[row as int].len() == 0);
    assert(selected@.take(0) =~= Seq::<usize>::empty());
    for i in 0..selected.len()
        invariant
            eligible(selected@, row, edges.len()),
            adjacency@.len() == edges.len(),
            crate::dataset::contents(adjacency@) == with_edges(
                edges,
                row,
                selected@.take(i as int),
            ),
    {
        let other: usize = selected[i];
        let ghost before = crate::dataset::contents(adjacency@);
        assert(selected@.take(i + 1).drop_last() =~= selected@.take(i as int));
        adjacency[row].push(other);
        let ghost there = before.update(row as int, before[row as int].push(other));
        assert(crate::dataset::contents(adjacency@) =~= there);
        adjacency[other].push(row);
        assert(crate::dataset::contents(adjacency@) =~= there.update(
            other as int,
            there[other as int].push(row),
        ));
    }
    assert(selected@.take(selected@.len() as int) =~= selected@);
    let ghost grown = with_edges(edges, row, selected@);
    let mut owners = selected;
    owners.push(row);
    proof {
        lemma_with_edges(edges, row, selected@);
        lemma_with_edges_sound(edges, row, selected@);
        linking_keeps_the_graph_sound(space, edges, row, selected@, max_connections as nat);
        assert forall|i: int| 0 <= i < owners@.len() implies (#[trigger] owners@[i])
            < grown.len() by {
            if i < selected@.len() {
                assert(owners@[i] == selected@[i]);
            }
        }
    }
    assert(owners@.take(0) =~= Seq::<usize>::empty());
    for i in 0..owners.len()
        invariant
            crate::math::lawful(math),
            space == crate::graph::row_space(math, metric, dataset@),
            grown.len() == dataset@.len(),
            sound(grown, grown.len()),
            forall|j: int| 0 <= j < owners@.len() ==> (#[trigger] owners@[j]) < grown.len(),
            crate::dataset::contents(adjacency@) == settle_all(
                space,
                grown,
                owners@.take(i as int),
                max_connections as nat,
            ),
    {
        proof {
            assert(owners@.take(i + 1).drop_last() =~= owners@.take(i as int));
            assert forall|j: int| 0 <= j < owners@.take(i as int).len() implies (
            #[trigger] owners@.take(i as int)[j]) < grown.len() by {
                assert(owners@.take(i as int)[j] == owners@[j]);
            }
            lemma_settle_all(space, grown, owners@.take(i as int), max_connections as nat);
        }
        settle_row(math, dataset, metric, adjacency, owners[i], max_connections);
    }
    assert(owners@.take(owners@.len() as int) =~= owners@);
}

} // verus!
