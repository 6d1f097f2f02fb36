//! In which order a search of a layer follows rows, and when it ends.
//!
//! A search meets the entry points, and the rows linked from the rows that it
//! follows. It follows the nearest row met that it has not followed, for as long
//! as that is one of the nearest met, as many as it keeps.

use vstd::prelude::*;

use crate::graph::{Beam, Walk};
use crate::ranking::Ranked;
use crate::types::Neighbor;

verus! {

/// Whether a search that followed `followed` has met `row`.
pub open spec fn met(
    edges: Seq<Seq<usize>>,
    limit: nat,
    entries: Seq<usize>,
    followed: Seq<usize>,
    row: usize,
) -> bool {
    row < limit && (entries.contains(row) || exists|j: int|
        0 <= j < followed.len() && edges[#[trigger] followed[j] as int].contains(row))
}

/// Whether `found` are the nearest `width` of the rows that a search met which
/// followed `followed`, or all of them where they are fewer.
pub open spec fn nearest_met(
    dist: spec_fn(usize) -> u32,
    edges: Seq<Seq<usize>>,
    limit: nat,
    entries: Seq<usize>,
    followed: Seq<usize>,
    width: nat,
    found: Seq<Neighbor>,
) -> bool {
    &&& crate::graph_laws::nearest_ranked(dist, found)
    &&& found.len() <= width
    &&& forall|i: int|
        0 <= i < found.len() ==> met(edges, limit, entries, followed, (#[trigger] found[i]).row)
    &&& forall|row: usize| #[trigger]
        met(edges, limit, entries, followed, row) ==> crate::graph_laws::found_or_beaten(
            dist,
            found,
            width,
            row,
        )
}

/// Whether `next` is the row to follow after `followed`: the nearest of those met
/// and not followed, and one of the nearest `width` of those met.
pub open spec fn follows(
    dist: spec_fn(usize) -> u32,
    edges: Seq<Seq<usize>>,
    limit: nat,
    entries: Seq<usize>,
    width: nat,
    followed: Seq<usize>,
    next: usize,
) -> bool {
    &&& met(edges, limit, entries, followed, next)
    &&& !followed.contains(next)
    &&& forall|row: usize| #[trigger]
        met(edges, limit, entries, followed, row) && !followed.contains(row) && row != next
            ==> crate::graph_laws::ahead(dist, next, row)
    &&& exists|found: Seq<Neighbor>| #[trigger]
        nearest_met(dist, edges, limit, entries, followed, width, found)
            && crate::graph_laws::names(found, next)
}

/// Whether a search follows the rows `followed`, in this order.
pub open spec fn followed_in_turn(
    dist: spec_fn(usize) -> u32,
    edges: Seq<Seq<usize>>,
    limit: nat,
    entries: Seq<usize>,
    width: nat,
    followed: Seq<usize>,
) -> bool {
    forall|j: int|
        0 <= j < followed.len() ==> follows(
            dist,
            edges,
            limit,
            entries,
            width,
            followed.take(j),
            #[trigger] followed[j],
        )
}

/// Whether a search that keeps `width` rows follows the rows `followed` and
/// answers `found`: the nearest of the rows met, all of them followed.
#[verifier::opaque]
pub open spec fn followed_out(
    dist: spec_fn(usize) -> u32,
    edges: Seq<Seq<usize>>,
    limit: nat,
    entries: Seq<usize>,
    width: nat,
    found: Seq<Neighbor>,
    followed: Seq<usize>,
) -> bool {
    &&& followed_in_turn(dist, edges, limit, entries, width, followed)
    &&& nearest_met(dist, edges, limit, entries, followed, width, found)
    &&& forall|i: int| 0 <= i < found.len() ==> followed.contains((#[trigger] found[i]).row)
}

/// What holds of a search that followed `followed` while it goes on.
spec fn in_step(
    walk: Walk,
    dist: spec_fn(usize) -> u32,
    beam: Beam,
    followed: Seq<usize>,
) -> bool {
    &&& forall|row: usize| #[trigger] beam.visited.contains(row) ==> row < walk.limit
    &&& crate::graph_laws::nearest_ranked(dist, beam.found)
    &&& beam.found.len() <= walk.width
    &&& forall|i: int|
        0 <= i < beam.found.len() ==> beam.visited.contains((#[trigger] beam.found[i]).row)
    &&& forall|row: usize| #[trigger]
        beam.visited.contains(row) ==> crate::graph_laws::found_or_beaten(
            dist,
            beam.found,
            walk.width,
            row,
        )
    &&& crate::ranking::ascends(beam.frontier)
    &&& beam.frontier.no_duplicates()
    &&& forall|x: Neighbor| #[trigger]
        beam.frontier.contains(x) ==> x == (walk.near)(x.row) && beam.visited.contains(x.row)
            && !followed.contains(x.row)
    &&& forall|row: usize| #[trigger]
        beam.visited.contains(row) ==> followed.contains(row) || beam.frontier.contains(
            (walk.near)(row),
        ) || beaten(dist, beam.found, walk.width, row)
    &&& forall|row: usize| #[trigger] followed.contains(row) ==> beam.visited.contains(row)
}

/// Whether `found` is `width` rows that are all ahead of `row`.
spec fn beaten(
    dist: spec_fn(usize) -> u32,
    found: Seq<Neighbor>,
    width: nat,
    row: usize,
) -> bool {
    found.len() == width && forall|i: int|
        0 <= i < found.len() ==> crate::graph_laws::ahead(dist, (#[trigger] found[i]).row, row)
}

/// Ranked rows are distinct items that ascend.
proof fn lemma_ranked(dist: spec_fn(usize) -> u32, found: Seq<Neighbor>)
    requires
        crate::graph_laws::nearest_ranked(dist, found),
    ensures
        crate::ranking::ascends(found),
        found.no_duplicates(),
{
    assert forall|i: int, j: int| 0 <= i < j < found.len() implies !crate::ranking::precedes(
        (#[trigger] found[j]).rank(),
        (#[trigger] found[i]).rank(),
    ) && found[i] != found[j] by {
        assert(crate::graph_laws::ahead(dist, found[i].row, found[j].row));
    }
}

/// The first few of ranked rows and one more: they are ranked, and name or beat
/// whatever the rows named or beat, and the one more.
proof fn lemma_one_more_found(
    dist: spec_fn(usize) -> u32,
    found: Seq<Neighbor>,
    width: nat,
    item: Neighbor,
)
    requires
        width >= 1,
        crate::graph_laws::nearest_ranked(dist, found),
        found.len() <= width,
        item.distance == dist(item.row),
        !crate::graph_laws::names(found, item.row),
    ensures
        ({
            let few = crate::ranking::first_few(crate::ranking::insert(found, item), width);
            &&& crate::graph_laws::nearest_ranked(dist, few)
            &&& few.len() <= width
            &&& forall|i: int|
                0 <= i < few.len() ==> (#[trigger] few[i]).row == item.row
                    || crate::graph_laws::names(found, few[i].row)
            &&& crate::graph_laws::found_or_beaten(dist, few, width, item.row)
            &&& forall|row: usize|
                crate::graph_laws::found_or_beaten(dist, found, width, row)
                    ==> #[trigger] crate::graph_laws::found_or_beaten(dist, few, width, row)
            &&& forall|row: usize|
                beaten(dist, found, width, row) ==> #[trigger] beaten(dist, few, width, row)
        }),
{
    lemma_ranked(dist, found);
    assert(!found.contains(item)) by {
        if found.contains(item) {
            let i = choose|i: int| 0 <= i < found.len() && found[i] == item;
            assert(found[i].row == item.row);
        }
    }
    let all = crate::ranking::insert(found, item);
    let few = crate::ranking::first_few(all, width);
    crate::ranking::lemma_insert(found, item);
    crate::ranking::lemma_insert_distinct(found, item);
    crate::ranking::lemma_first_few(all, width);
    assert forall|x: Neighbor| #[trigger] all.contains(x) implies x.distance == dist(x.row) by {
        if x != item {
            let i = choose|i: int| 0 <= i < found.len() && found[i] == x;
            assert(found[i].distance == dist(found[i].row));
        }
    }
    assert forall|i: int| 0 <= i < few.len() implies (#[trigger] few[i]).distance == dist(
        few[i].row,
    ) && (few[i].row == item.row || crate::graph_laws::names(found, few[i].row)) by {
        assert(few.contains(few[i]));
        assert(all.contains(few[i]));
        if few[i] != item {
            let j = choose|j: int| 0 <= j < found.len() && found[j] == few[i];
            assert(found[j].row == few[i].row);
        }
    }
    assert forall|i: int, j: int| 0 <= i < j < few.len() implies crate::graph_laws::ahead(
        dist,
        (#[trigger] few[i]).row,
        (#[trigger] few[j]).row,
    ) by {
        assert(!crate::ranking::precedes(few[j].rank(), few[i].rank()));
        assert(few[i] != few[j]);
        if few[i].rank() == few[j].rank() {
            Neighbor::rank_identifies(few[i], few[j]);
        }
    }
    assert forall|x: Neighbor| #[trigger] all.contains(x) implies
        crate::graph_laws::found_or_beaten(dist, few, width, x.row) by {
        if few.contains(x) {
            let i = choose|i: int| 0 <= i < few.len() && few[i] == x;
            assert(few[i].row == x.row);
        } else {
            crate::ranking::lemma_beyond_first_few(all, width, x);
            assert forall|i: int| 0 <= i < few.len() implies crate::graph_laws::ahead(
                dist,
                (#[trigger] few[i]).row,
                x.row,
            ) by {
                assert(crate::ranking::precedes(few[i].rank(), x.rank()));
            }
        }
    }
    assert(all.contains(item));
    assert forall|row: usize|
        beaten(dist, found, width, row) implies #[trigger] beaten(dist, few, width, row) by {
        let last = all[width as int];
        assert(all.len() == width + 1);
        assert(few == all.take(width as int));
        assert(all.contains(last));
        assert forall|i: int| 0 <= i < few.len() implies crate::graph_laws::ahead(
            dist,
            (#[trigger] few[i]).row,
            row,
        ) by {
            assert(few[i] == all[i]);
            assert(all.contains(all[i]));
            if few[i] == item {
                assert(all[i] != all[width as int]);
                assert(found.contains(last));
                let j = choose|j: int| 0 <= j < found.len() && found[j] == last;
                assert(crate::graph_laws::ahead(dist, found[j].row, row));
                assert(!crate::ranking::precedes(all[width as int].rank(), all[i].rank()));
                assert(last.distance == dist(last.row));
            } else {
                assert(found.contains(few[i]));
                let j = choose|j: int| 0 <= j < found.len() && found[j] == few[i];
                assert(crate::graph_laws::ahead(dist, found[j].row, row));
            }
        }
    }
    assert forall|row: usize|
        crate::graph_laws::found_or_beaten(dist, found, width, row) implies
        #[trigger] crate::graph_laws::found_or_beaten(dist, few, width, row) by {
        if crate::graph_laws::names(found, row) {
            let i = choose|i: int| 0 <= i < found.len() && (#[trigger] found[i]).row == row;
            assert(found.contains(found[i]));
            assert(all.contains(found[i]));
        } else {
            assert(beaten(dist, found, width, row));
            assert(beaten(dist, few, width, row));
        }
    }
}

/// Taking up a row keeps a search in step.
proof fn lemma_take_up(
    walk: Walk,
    dist: spec_fn(usize) -> u32,
    beam: Beam,
    followed: Seq<usize>,
    row: usize,
)
    requires
        crate::graph_laws::walk_by(walk, dist),
        in_step(walk, dist, beam, followed),
        walk.fresh(beam, row),
    ensures
        in_step(walk, dist, walk.take_up(beam, row), followed),
{
    let item = (walk.near)(row);
    let after = walk.take_up(beam, row);
    assert(item == (Neighbor { row, distance: dist(row) }));
    assert(!crate::graph_laws::names(beam.found, row));
    assert(!beam.frontier.contains(item));
    lemma_one_more_found(dist, beam.found, walk.width, item);
    crate::ranking::lemma_insert(beam.frontier, item);
    crate::ranking::lemma_insert_distinct(beam.frontier, item);
    assert forall|i: int| 0 <= i < after.found.len() implies after.visited.contains(
        (#[trigger] after.found[i]).row,
    ) by {
        if after.found[i].row != row {
            let j = choose|j: int|
                0 <= j < beam.found.len() && (#[trigger] beam.found[j]).row == after.found[i].row;
            assert(beam.visited.contains(beam.found[j].row));
        }
    }
    assert forall|r: usize| #[trigger] after.visited.contains(r) implies
        crate::graph_laws::found_or_beaten(dist, after.found, walk.width, r) && (
    followed.contains(r) || after.frontier.contains((walk.near)(r)) || beaten(
        dist,
        after.found,
        walk.width,
        r,
    )) by {
        if r != row {
            assert(beam.visited.contains(r));
            assert(crate::graph_laws::found_or_beaten(dist, beam.found, walk.width, r));
            if beaten(dist, beam.found, walk.width, r) {
                assert(beaten(dist, after.found, walk.width, r));
            }
        }
    }
}

/// Looking at a linked row keeps a search in step, and the row is met.
proof fn lemma_look(
    walk: Walk,
    dist: spec_fn(usize) -> u32,
    beam: Beam,
    followed: Seq<usize>,
    row: usize,
)
    requires
        crate::graph_laws::walk_by(walk, dist),
        in_step(walk, dist, beam, followed),
    ensures
        in_step(walk, dist, walk.look(beam, row), followed),
        walk.look(beam, row).visited == (if row < walk.limit {
            beam.visited.insert(row)
        } else {
            beam.visited
        }),
{
    let after = walk.look(beam, row);
    if !walk.fresh(beam, row) {
        if row < walk.limit {
            assert(beam.visited.insert(row) =~= beam.visited);
        }
    } else if walk.promising(beam, row) {
        lemma_take_up(walk, dist, beam, followed, row);
    } else {
        let item = (walk.near)(row);
        let last = beam.found.last();
        assert(item == (Neighbor { row, distance: dist(row) }));
        assert(beam.found[beam.found.len() - 1] == last);
        assert(beam.visited.contains(last.row));
        assert forall|i: int| 0 <= i < beam.found.len() implies crate::graph_laws::ahead(
            dist,
            (#[trigger] beam.found[i]).row,
            row,
        ) by {
            if i < beam.found.len() - 1 {
                assert(crate::graph_laws::ahead(dist, beam.found[i].row, last.row));
            }
        }
        assert(beaten(dist, after.found, walk.width, row));
        assert(crate::graph_laws::found_or_beaten(dist, after.found, walk.width, row));
    }
}

/// Looking at rows in turn keeps a search in step, and those below the limit are
/// met.
proof fn lemma_look_all(
    walk: Walk,
    dist: spec_fn(usize) -> u32,
    beam: Beam,
    followed: Seq<usize>,
    rows: Seq<usize>,
)
    requires
        crate::graph_laws::walk_by(walk, dist),
        in_step(walk, dist, beam, followed),
    ensures
        in_step(walk, dist, walk.look_all(beam, rows), followed),
        forall|row: usize| #[trigger]
            walk.look_all(beam, rows).visited.contains(row) <==> beam.visited.contains(row) || (
            row < walk.limit && rows.contains(row)),
    decreases rows.len(),
{
    if rows.len() > 0 {
        let rest = rows.drop_last();
        lemma_look_all(walk, dist, beam, followed, rest);
        crate::seqs::lemma_drop_last_contains(rows);
        lemma_look(walk, dist, walk.look_all(beam, rest), followed, rows.last());
    }
}

/// Entering keeps a search in step, and the entry points below the limit are met.
proof fn lemma_enter_all(walk: Walk, dist: spec_fn(usize) -> u32, entries: Seq<usize>)
    requires
        crate::graph_laws::walk_by(walk, dist),
    ensures
        in_step(
            walk,
            dist,
            walk.enter_all(crate::graph::empty_beam(), entries),
            Seq::empty(),
        ),
        forall|row: usize| #[trigger]
            walk.enter_all(crate::graph::empty_beam(), entries).visited.contains(row) <==> row
                < walk.limit && entries.contains(row),
    decreases entries.len(),
{
    let start = crate::graph::empty_beam();
    if entries.len() > 0 {
        let rest = entries.drop_last();
        lemma_enter_all(walk, dist, rest);
        crate::seqs::lemma_drop_last_contains(entries);
        let before = walk.enter_all(start, rest);
        if walk.fresh(before, entries.last()) {
            lemma_take_up(walk, dist, before, Seq::empty(), entries.last());
        }
    }
}

/// The row that a search takes next is the one to follow.
proof fn lemma_follows(
    walk: Walk,
    dist: spec_fn(usize) -> u32,
    entries: Seq<usize>,
    beam: Beam,
    followed: Seq<usize>,
)
    requires
        crate::graph_laws::walk_by(walk, dist),
        in_step(walk, dist, beam, followed),
        forall|row: usize| #[trigger]
            beam.visited.contains(row) <==> met(
                walk.edges,
                walk.limit as nat,
                entries,
                followed,
                row,
            ),
        !walk.done(beam),
    ensures
        follows(
            dist,
            walk.edges,
            walk.limit as nat,
            entries,
            walk.width,
            followed,
            beam.frontier.first().row,
        ),
{
    let limit = walk.limit as nat;
    let next = beam.frontier.first();
    assert(beam.frontier[0] == next);
    assert(beam.frontier.contains(next));
    assert(next == (walk.near)(next.row));
    assert(beam.visited.contains(next.row));
    assert forall|row: usize| #[trigger]
        met(walk.edges, limit, entries, followed, row) && !followed.contains(row) && row
            != next.row implies crate::graph_laws::ahead(dist, next.row, row) by {
        assert(beam.visited.contains(row));
        let item = (walk.near)(row);
        assert(item == (Neighbor { row, distance: dist(row) }));
        if beam.frontier.contains(item) {
            let i = choose|i: int| 0 <= i < beam.frontier.len() && beam.frontier[i] == item;
            assert(i != 0);
            assert(!crate::ranking::precedes(
                beam.frontier[i].rank(),
                beam.frontier[0].rank(),
            ));
        } else {
            assert(beaten(dist, beam.found, walk.width, row));
            let last = beam.found[beam.found.len() - 1];
            assert(last == beam.found.last());
            assert(crate::graph_laws::ahead(dist, last.row, row));
            assert(last.distance == dist(last.row));
            assert(!crate::ranking::precedes(last.rank(), next.rank()));
        }
    }
    assert(nearest_met(dist, walk.edges, limit, entries, followed, walk.width, beam.found)) by {
        assert forall|row: usize| #[trigger]
            met(walk.edges, limit, entries, followed, row) implies
            crate::graph_laws::found_or_beaten(dist, beam.found, walk.width, row) by {
            assert(beam.visited.contains(row));
        }
        assert forall|i: int| 0 <= i < beam.found.len() implies met(
            walk.edges,
            limit,
            entries,
            followed,
            (#[trigger] beam.found[i]).row,
        ) by {
            assert(beam.visited.contains(beam.found[i].row));
        }
    }
    assert(crate::graph_laws::names(beam.found, next.row)) by {
        assert(crate::graph_laws::found_or_beaten(dist, beam.found, walk.width, next.row));
        if !crate::graph_laws::names(beam.found, next.row) {
            let last = beam.found[beam.found.len() - 1];
            assert(last == beam.found.last());
            assert(crate::graph_laws::ahead(dist, last.row, next.row));
            assert(last.distance == dist(last.row));
        }
    }
}

/// What a search that goes on follows and answers.
proof fn lemma_run(
    walk: Walk,
    dist: spec_fn(usize) -> u32,
    entries: Seq<usize>,
    beam: Beam,
    followed: Seq<usize>,
) -> (all: Seq<usize>)
    requires
        crate::graph_laws::walk_by(walk, dist),
        in_step(walk, dist, beam, followed),
        forall|row: usize| #[trigger]
            beam.visited.contains(row) <==> met(
                walk.edges,
                walk.limit as nat,
                entries,
                followed,
                row,
            ),
        followed_in_turn(
            dist,
            walk.edges,
            walk.limit as nat,
            entries,
            walk.width,
            followed,
        ),
    ensures
        followed_out(
            dist,
            walk.edges,
            walk.limit as nat,
            entries,
            walk.width,
            walk.run(beam),
            all,
        ),
    decreases walk.steps_left(beam),
{
    reveal(followed_out);
    let limit = walk.limit as nat;
    if walk.done(beam) {
        let found = beam.found;
        assert forall|i: int| 0 <= i < found.len() implies followed.contains(
            (#[trigger] found[i]).row,
        ) && met(walk.edges, limit, entries, followed, found[i].row) by {
            let row = found[i].row;
            assert(beam.visited.contains(row));
            let item = (walk.near)(row);
            assert(item == (Neighbor { row, distance: dist(row) }));
            assert(item == found[i]);
            if beaten(dist, found, walk.width, row) {
                assert(crate::graph_laws::ahead(dist, found[i].row, row));
            }
            if beam.frontier.contains(item) {
                let j = choose|j: int| 0 <= j < beam.frontier.len() && beam.frontier[j] == item;
                assert(beam.frontier[0] == beam.frontier.first());
                let last = found[found.len() - 1];
                assert(last == found.last());
                assert(last.distance == dist(last.row));
                if i < found.len() - 1 {
                    assert(crate::graph_laws::ahead(dist, found[i].row, last.row));
                }
                if j > 0 {
                    assert(!crate::ranking::precedes(
                        beam.frontier[j].rank(),
                        beam.frontier[0].rank(),
                    ));
                }
            }
        }
        assert forall|row: usize| #[trigger]
            met(walk.edges, limit, entries, followed, row) implies
            crate::graph_laws::found_or_beaten(dist, found, walk.width, row) by {
            assert(beam.visited.contains(row));
        }
        followed
    } else {
        let next = beam.frontier.first();
        let more = followed.push(next.row);
        lemma_follows(walk, dist, entries, beam, followed);
        crate::seqs::lemma_push_contains(followed, next.row);
        assert(beam.frontier[0] == next);
        assert(beam.frontier.contains(next));
        assert(beam.visited.contains(next.row));
        let popped = Beam {
            visited: beam.visited,
            frontier: beam.frontier.drop_first(),
            found: beam.found,
        };
        assert forall|i: int| 0 <= i < popped.frontier.len() implies #[trigger] popped.frontier[i]
            == beam.frontier[i + 1] by {}
        assert forall|x: Neighbor| #[trigger]
            popped.frontier.contains(x) <==> beam.frontier.contains(x) && x != next by {
            if popped.frontier.contains(x) {
                let i = choose|i: int|
                    0 <= i < popped.frontier.len() && popped.frontier[i] == x;
                assert(beam.frontier[i + 1] == x);
                assert(beam.frontier[i + 1] != beam.frontier[0]);
            }
            if beam.frontier.contains(x) && x != next {
                let i = choose|i: int| 0 <= i < beam.frontier.len() && beam.frontier[i] == x;
                assert(popped.frontier[i - 1] == x);
            }
        }
        assert(in_step(walk, dist, popped, more)) by {
            assert forall|i: int, j: int| 0 <= i < j < popped.frontier.len() implies
                !crate::ranking::precedes(
                (#[trigger] popped.frontier[j]).rank(),
                (#[trigger] popped.frontier[i]).rank(),
            ) by {
                assert(!crate::ranking::precedes(
                    beam.frontier[j + 1].rank(),
                    beam.frontier[i + 1].rank(),
                ));
            }
            assert forall|i: int, j: int|
                0 <= i < popped.frontier.len() && 0 <= j < popped.frontier.len() && i
                    != j implies popped.frontier[i] != popped.frontier[j] by {
                assert(beam.frontier[i + 1] != beam.frontier[j + 1]);
            }
            assert forall|x: Neighbor| #[trigger] popped.frontier.contains(x) implies x == (
            walk.near)(x.row) && popped.visited.contains(x.row) && !more.contains(x.row) by {
                assert(beam.frontier.contains(x));
                assert(followed.push(next.row).contains(x.row) <==> x.row == next.row
                    || followed.contains(x.row));
                if x.row == next.row {
                    assert(x == (walk.near)(x.row));
                    assert(next == (walk.near)(next.row));
                }
            }
            assert forall|row: usize| #[trigger] popped.visited.contains(row) implies
                more.contains(row) || popped.frontier.contains((walk.near)(row)) || beaten(
                dist,
                popped.found,
                walk.width,
                row,
            ) by {
                assert(beam.visited.contains(row));
                assert(followed.push(next.row).contains(row) <==> row == next.row
                    || followed.contains(row));
                if row != next.row {
                    assert((walk.near)(row).row == row);
                }
            }
            assert forall|row: usize| #[trigger] more.contains(row) implies popped.visited.contains(
                row,
            ) by {
                assert(followed.push(next.row).contains(row) <==> row == next.row
                    || followed.contains(row));
            }
        }
        let links = walk.links(next.row);
        lemma_look_all(walk, dist, popped, more, links);
        let after = walk.step(beam);
        assert(next.row < walk.limit);
        assert(links == walk.edges[next.row as int]);
        assert forall|row: usize| #[trigger] after.visited.contains(row) <==> met(
            walk.edges,
            limit,
            entries,
            more,
            row,
        ) by {
            assert(beam.visited.contains(row) <==> met(
                walk.edges,
                limit,
                entries,
                followed,
                row,
            ));
            if met(walk.edges, limit, entries, followed, row) {
                if !entries.contains(row) {
                    let j = choose|j: int|
                        0 <= j < followed.len() && walk.edges[#[trigger] followed[
                            j
                        ] as int].contains(row);
                    assert(more[j] == followed[j]);
                }
            }
            if row < walk.limit && links.contains(row) {
                assert(more[followed.len() as int] == next.row);
            }
            if met(walk.edges, limit, entries, more, row) && !entries.contains(row) {
                let j = choose|j: int|
                    0 <= j < more.len() && walk.edges[#[trigger] more[j] as int].contains(row);
                if j < followed.len() {
                    assert(followed[j] == more[j]);
                    assert(met(walk.edges, limit, entries, followed, row));
                }
            }
        }
        assert forall|j: int| 0 <= j < more.len() implies follows(
            dist,
            walk.edges,
            limit,
            entries,
            walk.width,
            more.take(j),
            #[trigger] more[j],
        ) by {
            if j < followed.len() {
                assert(more.take(j) =~= followed.take(j));
                assert(more[j] == followed[j]);
            } else {
                assert(more.take(j) =~= followed);
            }
        }
        crate::graph::lemma_step_advances(walk, beam);
        lemma_run(walk, dist, entries, after, more)
    }
}

/// A walk follows and answers what it should.
pub proof fn lemma_followed_out(
    walk: Walk,
    dist: spec_fn(usize) -> u32,
    entries: Seq<usize>,
) -> (followed: Seq<usize>)
    requires
        crate::graph_laws::walk_by(walk, dist),
    ensures
        followed_out(
            dist,
            walk.edges,
            walk.limit as nat,
            entries,
            walk.width,
            walk.search(entries),
            followed,
        ),
{
    let beam = walk.enter_all(crate::graph::empty_beam(), entries);
    lemma_enter_all(walk, dist, entries);
    assert forall|row: usize| #[trigger] beam.visited.contains(row) <==> met(
        walk.edges,
        walk.limit as nat,
        entries,
        Seq::empty(),
        row,
    ) by {}
    lemma_run(walk, dist, entries, beam, Seq::empty())
}

} // verus!
