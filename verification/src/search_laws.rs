//! What a search of a graph finds.

use vstd::prelude::*;

use crate::graph::{Beam, Walk};
use crate::ranking::Ranked;
use crate::types::Neighbor;

verus! {

/// Whether the walk gives each row under its own name and keeps at least one.
pub open spec fn proper(walk: Walk) -> bool {
    &&& walk.width >= 1
    &&& forall|row: usize| (#[trigger] (walk.near)(row)).row == row
}

/// Whether `neighbors` are rows below the limit with their true distances,
/// each once, nearest first.
pub open spec fn true_neighbors(walk: Walk, neighbors: Seq<Neighbor>) -> bool {
    &&& crate::ranking::ascends(neighbors)
    &&& neighbors.no_duplicates()
    &&& forall|x: Neighbor| #[trigger]
        neighbors.contains(x) ==> x.row < walk.limit && x == (walk.near)(x.row)
}

/// Whether `rows` is a chain of links between rows below the limit.
pub open spec fn chain(walk: Walk, rows: Seq<usize>) -> bool {
    &&& forall|i: int| 0 <= i < rows.len() ==> (#[trigger] rows[i]) < walk.limit
    &&& forall|i: int|
        0 < i < rows.len() ==> walk.links(rows[i - 1]).contains(#[trigger] rows[i])
}

/// Whether `rows` is a chain of links from one of `entries` to `row`.
pub open spec fn leads(walk: Walk, entries: Seq<usize>, row: usize, rows: Seq<usize>) -> bool {
    &&& rows.len() > 0
    &&& chain(walk, rows)
    &&& entries.contains(rows[0])
    &&& rows.last() == row
}

/// Whether `row` can be reached from `entries` along links.
pub open spec fn reachable(walk: Walk, entries: Seq<usize>, row: usize) -> bool {
    exists|rows: Seq<usize>| leads(walk, entries, row, rows)
}

/// What holds of a search at any time.
spec fn beam_ok(walk: Walk, beam: Beam) -> bool {
    &&& true_neighbors(walk, beam.found)
    &&& true_neighbors(walk, beam.frontier)
    &&& beam.found.len() <= walk.width
    &&& forall|x: Neighbor| #[trigger]
        beam.found.contains(x) ==> beam.visited.contains(x.row)
    &&& forall|x: Neighbor| #[trigger]
        beam.frontier.contains(x) ==> beam.visited.contains(x.row)
    &&& forall|row: usize| #[trigger] beam.visited.contains(row) ==> row < walk.limit
}

proof fn lemma_take_up(walk: Walk, beam: Beam, row: usize)
    requires
        proper(walk),
        beam_ok(walk, beam),
        walk.fresh(beam, row),
    ensures
        beam_ok(walk, walk.take_up(beam, row)),
        forall|x: Neighbor| #[trigger]
            walk.take_up(beam, row).frontier.contains(x) <==> x == (walk.near)(row)
                || beam.frontier.contains(x),
        walk.take_up(beam, row).frontier.len() == beam.frontier.len() + 1,
        walk.take_up(beam, row).found.len() > 0,
{
    let item = (walk.near)(row);
    assert(item.row == row);
    assert(!beam.found.contains(item));
    assert(!beam.frontier.contains(item));
    crate::ranking::lemma_insert(beam.frontier, item);
    crate::ranking::lemma_insert_distinct(beam.frontier, item);
    crate::ranking::lemma_insert(beam.found, item);
    crate::ranking::lemma_insert_distinct(beam.found, item);
    let grown = crate::ranking::insert(beam.found, item);
    crate::ranking::lemma_first_few(grown, walk.width);
    let after = walk.take_up(beam, row);
    assert forall|x: Neighbor| #[trigger] after.found.contains(x) implies x.row < walk.limit && x
        == (walk.near)(x.row) && after.visited.contains(x.row) by {
        assert(grown.contains(x));
    }
    assert forall|x: Neighbor| #[trigger] after.frontier.contains(x) implies x.row < walk.limit
        && x == (walk.near)(x.row) && after.visited.contains(x.row) by {
    }
}

proof fn lemma_look_all(walk: Walk, beam: Beam, rows: Seq<usize>)
    requires
        proper(walk),
        beam_ok(walk, beam),
    ensures
        beam_ok(walk, walk.look_all(beam, rows)),
        beam.found.len() > 0 ==> walk.look_all(beam, rows).found.len() > 0,
        forall|row: usize| #[trigger]
            walk.look_all(beam, rows).visited.contains(row) <==> beam.visited.contains(row) || (row
                < walk.limit && rows.contains(row)),
        forall|x: Neighbor| #[trigger]
            beam.frontier.contains(x) ==> walk.look_all(beam, rows).frontier.contains(x),
    decreases rows.len(),
{
    if rows.len() > 0 {
        let rest = rows.drop_last();
        let last = rows.last();
        lemma_look_all(walk, beam, rest);
        crate::seqs::lemma_drop_last_contains(rows);
        let before = walk.look_all(beam, rest);
        let after = walk.look_all(beam, rows);
        if walk.fresh(before, last) {
            lemma_take_up(walk, before, last);
        }
        assert(after.visited =~= (if last < walk.limit {
            before.visited.insert(last)
        } else {
            before.visited
        }));
        assert forall|row: usize| #[trigger] after.visited.contains(row) <==> beam.visited.contains(
            row,
        ) || (row < walk.limit && rows.contains(row)) by {
            assert(before.visited.contains(row) <==> beam.visited.contains(row) || (row
                < walk.limit && rest.contains(row)));
        }
        assert forall|x: Neighbor| #[trigger] beam.frontier.contains(
            x,
        ) implies after.frontier.contains(x) by {
            assert(before.frontier.contains(x));
        }
    }
}

proof fn lemma_enter_all(walk: Walk, rows: Seq<usize>)
    requires
        proper(walk),
    ensures
        beam_ok(walk, walk.enter_all(crate::graph::empty_beam(), rows)),
        forall|row: usize| #[trigger]
            walk.enter_all(crate::graph::empty_beam(), rows).visited.contains(row) <==> row
                < walk.limit && rows.contains(row),
        forall|row: usize|
            walk.enter_all(crate::graph::empty_beam(), rows).visited.contains(row)
                ==> walk.enter_all(crate::graph::empty_beam(), rows).frontier.contains(
                #[trigger] (walk.near)(row),
            ),
        (exists|row: usize|
            walk.enter_all(crate::graph::empty_beam(), rows).visited.contains(row)) ==>
            walk.enter_all(crate::graph::empty_beam(), rows).found.len() > 0,
    decreases rows.len(),
{
    if rows.len() > 0 {
        let rest = rows.drop_last();
        let last = rows.last();
        lemma_enter_all(walk, rest);
        crate::seqs::lemma_drop_last_contains(rows);
        let before = walk.enter_all(crate::graph::empty_beam(), rest);
        let after = walk.enter_all(crate::graph::empty_beam(), rows);
        if walk.fresh(before, last) {
            lemma_take_up(walk, before, last);
        }
        assert forall|row: usize| #[trigger] after.visited.contains(row) <==> row < walk.limit
            && rows.contains(row) by {
            assert(before.visited.contains(row) <==> row < walk.limit && rest.contains(row));
        }
        assert forall|row: usize| after.visited.contains(row) implies after.frontier.contains(
            #[trigger] (walk.near)(row),
        ) by {
            if before.visited.contains(row) {
                assert(before.frontier.contains((walk.near)(row)));
            }
        }
    }
}

proof fn lemma_popped(walk: Walk, beam: Beam)
    requires
        beam_ok(walk, beam),
        beam.frontier.len() > 0,
    ensures
        beam_ok(
            walk,
            Beam { visited: beam.visited, frontier: beam.frontier.drop_first(), found: beam.found },
        ),
        beam.frontier.contains(beam.frontier.first()),
        forall|x: Neighbor| #[trigger]
            beam.frontier.contains(x) ==> x == beam.frontier.first()
                || beam.frontier.drop_first().contains(x),
{
    let rest = beam.frontier.drop_first();
    assert(beam.frontier[0] == beam.frontier.first());
    assert forall|i: int| 0 <= i < rest.len() implies #[trigger] rest[i] == beam.frontier[i
        + 1] by {}
    assert forall|i: int, j: int| 0 <= i < j < rest.len() implies !crate::ranking::precedes(
        (#[trigger] rest[j]).rank(),
        (#[trigger] rest[i]).rank(),
    ) by {
        assert(rest[i] == beam.frontier[i + 1] && rest[j] == beam.frontier[j + 1]);
    }
    assert forall|x: Neighbor| #[trigger] rest.contains(x) implies beam.frontier.contains(x) by {
        let i = choose|i: int| 0 <= i < rest.len() && rest[i] == x;
        assert(beam.frontier[i + 1] == x);
    }
    assert forall|x: Neighbor| #[trigger] beam.frontier.contains(x) implies x
        == beam.frontier.first() || rest.contains(x) by {
        let i = choose|i: int| 0 <= i < beam.frontier.len() && beam.frontier[i] == x;
        if i > 0 {
            assert(rest[i - 1] == x);
        }
    }
    assert(rest.no_duplicates()) by {
        assert forall|i: int, j: int|
            0 <= i < rest.len() && 0 <= j < rest.len() && i != j implies rest[i] != rest[j] by {
            assert(rest[i] == beam.frontier[i + 1] && rest[j] == beam.frontier[j + 1]);
        }
    }
}

proof fn lemma_step(walk: Walk, beam: Beam)
    requires
        proper(walk),
        beam_ok(walk, beam),
        beam.frontier.len() > 0,
    ensures
        beam_ok(walk, walk.step(beam)),
        beam.found.len() > 0 ==> walk.step(beam).found.len() > 0,
        forall|row: usize| #[trigger]
            walk.step(beam).visited.contains(row) <==> beam.visited.contains(row) || (row
                < walk.limit && walk.links(beam.frontier.first().row).contains(row)),
        forall|x: Neighbor| #[trigger]
            beam.frontier.contains(x) && x != beam.frontier.first() ==> walk.step(
                beam,
            ).frontier.contains(x),
{
    lemma_popped(walk, beam);
    lemma_look_all(
        walk,
        Beam { visited: beam.visited, frontier: beam.frontier.drop_first(), found: beam.found },
        walk.links(beam.frontier.first().row),
    );
}

proof fn lemma_run(walk: Walk, beam: Beam)
    requires
        proper(walk),
        beam_ok(walk, beam),
    ensures
        true_neighbors(walk, walk.run(beam)),
        walk.run(beam).len() <= walk.width,
        beam.found.len() > 0 ==> walk.run(beam).len() > 0,
    decreases walk.steps_left(beam),
{
    if !walk.done(beam) {
        lemma_step(walk, beam);
        crate::graph::lemma_step_advances(walk, beam);
        lemma_run(walk, walk.step(beam));
    }
}

/// A search finds at most as many rows as it may keep, each once and with its
/// true distance, nearest first; and it finds one as soon as an entry point is
/// below the limit.
pub proof fn search_finds_true_neighbors(walk: Walk, entries: Seq<usize>)
    requires
        proper(walk),
    ensures
        true_neighbors(walk, walk.search(entries)),
        walk.search(entries).len() <= walk.width,
        forall|row: usize| #[trigger]
            entries.contains(row) && row < walk.limit ==> walk.search(entries).len() > 0,
{
    lemma_enter_all(walk, entries);
    let start = walk.enter_all(crate::graph::empty_beam(), entries);
    lemma_run(walk, start);
    assert forall|row: usize| #[trigger] entries.contains(row) && row
        < walk.limit implies walk.search(entries).len() > 0 by {
        assert(start.visited.contains(row));
    }
}

/// Whether every row met can be reached from `entries`.
spec fn visited_reachable(walk: Walk, entries: Seq<usize>, beam: Beam) -> bool {
    forall|row: usize| #[trigger] beam.visited.contains(row) ==> reachable(walk, entries, row)
}

proof fn lemma_reach_further(walk: Walk, entries: Seq<usize>, row: usize, next: usize)
    requires
        reachable(walk, entries, row),
        walk.links(row).contains(next),
        next < walk.limit,
    ensures
        reachable(walk, entries, next),
{
    let rows = choose|rows: Seq<usize>| leads(walk, entries, row, rows);
    let longer = rows.push(next);
    assert forall|i: int| 0 <= i < longer.len() implies (#[trigger] longer[i]) < walk.limit by {
        if i < rows.len() {
            assert(longer[i] == rows[i]);
        }
    }
    assert forall|i: int| 0 < i < longer.len() implies walk.links(longer[i - 1]).contains(
        #[trigger] longer[i],
    ) by {
        assert(longer[i - 1] == rows[i - 1]);
        if i < rows.len() {
            assert(longer[i] == rows[i]);
        }
    }
    assert(longer[0] == rows[0]);
    assert(leads(walk, entries, next, longer));
}

proof fn lemma_run_reachable(walk: Walk, entries: Seq<usize>, beam: Beam)
    requires
        proper(walk),
        beam_ok(walk, beam),
        visited_reachable(walk, entries, beam),
    ensures
        forall|x: Neighbor| #[trigger]
            walk.run(beam).contains(x) ==> reachable(walk, entries, x.row),
    decreases walk.steps_left(beam),
{
    if !walk.done(beam) {
        lemma_step(walk, beam);
        lemma_popped(walk, beam);
        crate::graph::lemma_step_advances(walk, beam);
        let after = walk.step(beam);
        let from = beam.frontier.first().row;
        assert forall|row: usize| #[trigger] after.visited.contains(row) implies reachable(
            walk,
            entries,
            row,
        ) by {
            if !beam.visited.contains(row) {
                assert(beam.visited.contains(from));
                lemma_reach_further(walk, entries, from, row);
            }
        }
        lemma_run_reachable(walk, entries, after);
        assert(walk.run(beam) == walk.run(after));
    }
}

/// A search finds only rows that can be reached from its entry points.
pub proof fn search_stays_reachable(walk: Walk, entries: Seq<usize>)
    requires
        proper(walk),
    ensures
        forall|x: Neighbor| #[trigger]
            walk.search(entries).contains(x) ==> reachable(walk, entries, x.row),
{
    lemma_enter_all(walk, entries);
    let start = walk.enter_all(crate::graph::empty_beam(), entries);
    assert forall|row: usize| #[trigger] start.visited.contains(row) implies reachable(
        walk,
        entries,
        row,
    ) by {
        let rows = seq![row];
        assert(leads(walk, entries, row, rows));
    }
    lemma_run_reachable(walk, entries, start);
}

/// The links of `row` were followed.
spec fn followed(walk: Walk, beam: Beam, row: usize) -> bool {
    forall|next: usize| #[trigger]
        walk.links(row).contains(next) && next < walk.limit ==> beam.visited.contains(next)
}

/// Every entry point below the limit was met.
spec fn entries_met(walk: Walk, entries: Seq<usize>, beam: Beam) -> bool {
    forall|row: usize| #[trigger]
        entries.contains(row) && row < walk.limit ==> beam.visited.contains(row)
}

/// Whether `found` holds `row`, or is full of rows nearer than it.
pub open spec fn kept_or_beaten(walk: Walk, found: Seq<Neighbor>, row: usize) -> bool {
    found.contains((walk.near)(row)) || (found.len() == walk.width && forall|i: int|
        0 <= i < found.len() ==> crate::ranking::precedes(
            (#[trigger] found[i]).rank(),
            (walk.near)(row).rank(),
        ))
}

/// Every row met is kept or beaten.
spec fn settled(walk: Walk, beam: Beam) -> bool {
    forall|row: usize| #[trigger]
        beam.visited.contains(row) ==> kept_or_beaten(walk, beam.found, row)
}

proof fn lemma_take_up_settled(walk: Walk, beam: Beam, row: usize)
    requires
        proper(walk),
        beam_ok(walk, beam),
        settled(walk, beam),
        walk.fresh(beam, row),
    ensures
        settled(walk, walk.take_up(beam, row)),
        forall|x: Neighbor| #[trigger]
            walk.take_up(beam, row).found.contains(x) ==> x == (walk.near)(row)
                || beam.found.contains(x),
{
    let item = (walk.near)(row);
    assert(item.row == row);
    assert(!beam.found.contains(item));
    crate::ranking::lemma_insert(beam.found, item);
    crate::ranking::lemma_insert_distinct(beam.found, item);
    let grown = crate::ranking::insert(beam.found, item);
    crate::ranking::lemma_first_few(grown, walk.width);
    let after = walk.take_up(beam, row);
    assert forall|x: Neighbor| #[trigger] after.found.contains(x) implies x == item
        || beam.found.contains(x) by {
        assert(grown.contains(x));
    }
    assert forall|other: usize| #[trigger] after.visited.contains(other) implies kept_or_beaten(
        walk,
        after.found,
        other,
    ) by {
        let that = (walk.near)(other);
        if grown.contains(that) {
            if !after.found.contains(that) {
                crate::ranking::lemma_beyond_first_few(grown, walk.width, that);
            }
        } else {
            assert(beam.visited.contains(other));
            assert(kept_or_beaten(walk, beam.found, other));
            assert(!beam.found.contains(that));
            let lost = grown[walk.width as int];
            assert(grown.contains(lost));
            assert forall|i: int| 0 <= i < after.found.len() implies crate::ranking::precedes(
                (#[trigger] after.found[i]).rank(),
                that.rank(),
            ) by {
                let x = after.found[i];
                assert(x == grown[i]);
                assert(grown.contains(x));
                if beam.found.contains(x) {
                    let j = choose|j: int| 0 <= j < beam.found.len() && beam.found[j] == x;
                    assert(crate::ranking::precedes(beam.found[j].rank(), that.rank()));
                } else {
                    assert(x == item);
                    assert(lost != x);
                    assert(beam.found.contains(lost));
                    let j = choose|j: int| 0 <= j < beam.found.len() && beam.found[j] == lost;
                    assert(crate::ranking::precedes(beam.found[j].rank(), that.rank()));
                    assert(!crate::ranking::precedes(
                        grown[walk.width as int].rank(),
                        grown[i].rank(),
                    ));
                }
            }
        }
    }
}

proof fn lemma_enter_all_settled(walk: Walk, rows: Seq<usize>)
    requires
        proper(walk),
    ensures
        settled(walk, walk.enter_all(crate::graph::empty_beam(), rows)),
    decreases rows.len(),
{
    if rows.len() > 0 {
        let rest = rows.drop_last();
        lemma_enter_all_settled(walk, rest);
        lemma_enter_all(walk, rest);
        let before = walk.enter_all(crate::graph::empty_beam(), rest);
        if walk.fresh(before, rows.last()) {
            lemma_take_up_settled(walk, before, rows.last());
        }
    }
}

proof fn lemma_look_all_settled(walk: Walk, beam: Beam, rows: Seq<usize>)
    requires
        proper(walk),
        beam_ok(walk, beam),
        settled(walk, beam),
    ensures
        settled(walk, walk.look_all(beam, rows)),
        forall|x: Neighbor| #[trigger]
            walk.look_all(beam, rows).found.contains(x) ==> beam.found.contains(x)
                || walk.look_all(beam, rows).frontier.contains(x),
    decreases rows.len(),
{
    if rows.len() > 0 {
        let rest = rows.drop_last();
        let last = rows.last();
        lemma_look_all_settled(walk, beam, rest);
        lemma_look_all(walk, beam, rest);
        let before = walk.look_all(beam, rest);
        let after = walk.look_all(beam, rows);
        if walk.fresh(before, last) {
            if walk.promising(before, last) {
                lemma_take_up(walk, before, last);
                lemma_take_up_settled(walk, before, last);
                assert forall|x: Neighbor| #[trigger]
                    after.found.contains(x) implies beam.found.contains(x)
                    || after.frontier.contains(x) by {
                    if x != (walk.near)(last) {
                        assert(before.found.contains(x));
                        if before.frontier.contains(x) {
                            assert(after.frontier.contains(x));
                        }
                    }
                }
            } else {
                let item = (walk.near)(last);
                assert(item.row == last);
                assert forall|i: int|
                    0 <= i < before.found.len() implies crate::ranking::precedes(
                    (#[trigger] before.found[i]).rank(),
                    item.rank(),
                ) by {
                    let end = before.found.len() - 1;
                    assert(before.found[end] == before.found.last());
                    if i < end {
                        assert(!crate::ranking::precedes(
                            before.found[end].rank(),
                            before.found[i].rank(),
                        ));
                    }
                    if before.found[i].rank() == item.rank() {
                        Neighbor::rank_identifies(before.found[i], item);
                        assert(before.found.contains(item));
                    }
                }
                assert(kept_or_beaten(walk, after.found, last));
                assert forall|row: usize| #[trigger]
                    after.visited.contains(row) implies kept_or_beaten(
                    walk,
                    after.found,
                    row,
                ) by {
                    if row != last {
                        assert(before.visited.contains(row));
                    }
                }
            }
        }
    }
}

/// Every row kept waits in the frontier or was followed.
spec fn kept_wait_or_followed(walk: Walk, beam: Beam) -> bool {
    forall|x: Neighbor| #[trigger]
        beam.found.contains(x) ==> beam.frontier.contains(x) || followed(walk, beam, x.row)
}

/// Whether every row in reach of one step, an entry point or linked from a row
/// kept, is kept or beaten.
spec fn gap_free(walk: Walk, entries: Seq<usize>, found: Seq<Neighbor>) -> bool {
    &&& forall|row: usize| #[trigger]
        entries.contains(row) && row < walk.limit ==> kept_or_beaten(walk, found, row)
    &&& forall|x: Neighbor, next: usize|
        #![trigger found.contains(x), walk.links(x.row).contains(next)]
        found.contains(x) && walk.links(x.row).contains(next) && next < walk.limit
            ==> kept_or_beaten(walk, found, next)
}

proof fn lemma_run_gap_free(walk: Walk, entries: Seq<usize>, beam: Beam)
    requires
        proper(walk),
        beam_ok(walk, beam),
        settled(walk, beam),
        kept_wait_or_followed(walk, beam),
        entries_met(walk, entries, beam),
    ensures
        gap_free(walk, entries, walk.run(beam)),
    decreases walk.steps_left(beam),
{
    if walk.done(beam) {
        let found = beam.found;
        assert forall|row: usize| #[trigger] entries.contains(row) && row
            < walk.limit implies kept_or_beaten(walk, found, row) by {
            assert(beam.visited.contains(row));
        }
        assert forall|x: Neighbor, next: usize|
            #![trigger found.contains(x), walk.links(x.row).contains(next)]
            found.contains(x) && walk.links(x.row).contains(next) && next
                < walk.limit implies kept_or_beaten(walk, found, next) by {
            if beam.frontier.contains(x) {
                let i = choose|i: int| 0 <= i < beam.frontier.len() && beam.frontier[i] == x;
                let j = choose|j: int| 0 <= j < found.len() && found[j] == x;
                if i > 0 {
                    assert(!crate::ranking::precedes(
                        beam.frontier[i].rank(),
                        beam.frontier[0].rank(),
                    ));
                }
                if j < found.len() - 1 {
                    assert(!crate::ranking::precedes(
                        found[found.len() - 1].rank(),
                        found[j].rank(),
                    ));
                }
                assert(false);
            }
            assert(followed(walk, beam, x.row));
            assert(beam.visited.contains(next));
        }
    } else {
        lemma_step(walk, beam);
        lemma_popped(walk, beam);
        crate::graph::lemma_step_advances(walk, beam);
        let first = beam.frontier.first();
        let popped = Beam {
            visited: beam.visited,
            frontier: beam.frontier.drop_first(),
            found: beam.found,
        };
        lemma_look_all_settled(walk, popped, walk.links(first.row));
        let after = walk.step(beam);
        assert forall|x: Neighbor| #[trigger]
            after.found.contains(x) implies after.frontier.contains(x) || followed(
            walk,
            after,
            x.row,
        ) by {
            if !after.frontier.contains(x) {
                assert(beam.found.contains(x));
                if x != first {
                    assert(!beam.frontier.contains(x));
                    assert(followed(walk, beam, x.row));
                    assert forall|next: usize| #[trigger]
                        walk.links(x.row).contains(next) && next
                            < walk.limit implies after.visited.contains(next) by {
                        assert(beam.visited.contains(next));
                    }
                }
            }
        }
        assert forall|row: usize| #[trigger] entries.contains(row) && row
            < walk.limit implies after.visited.contains(row) by {
            assert(beam.visited.contains(row));
        }
        lemma_run_gap_free(walk, entries, after);
    }
}

/// A search leaves a row within one step out only for nearer ones: an entry
/// point, and a row linked from a row found, is found itself, unless as many
/// rows as may be kept are found and all of them are nearer.
pub proof fn search_leaves_out_only_for_nearer_rows(walk: Walk, entries: Seq<usize>)
    requires
        proper(walk),
    ensures
        forall|row: usize| #[trigger]
            entries.contains(row) && row < walk.limit ==> kept_or_beaten(
                walk,
                walk.search(entries),
                row,
            ),
        forall|x: Neighbor, next: usize|
            #![trigger walk.search(entries).contains(x), walk.links(x.row).contains(next)]
            walk.search(entries).contains(x) && walk.links(x.row).contains(next) && next
                < walk.limit ==> kept_or_beaten(walk, walk.search(entries), next),
{
    lemma_enter_all(walk, entries);
    lemma_enter_all_settled(walk, entries);
    let start = walk.enter_all(crate::graph::empty_beam(), entries);
    assert forall|x: Neighbor| #[trigger] start.found.contains(x) implies start.frontier.contains(
        x,
    ) by {
        assert(start.visited.contains(x.row));
        assert(start.frontier.contains((walk.near)(x.row)));
    }
    lemma_run_gap_free(walk, entries, start);
}

/// True neighbours are of distinct rows below the limit.
pub proof fn lemma_found_rows(walk: Walk, found: Seq<Neighbor>)
    requires
        true_neighbors(walk, found),
    ensures
        crate::graph::rows_of(found).no_duplicates(),
        forall|row: usize| #[trigger]
            crate::graph::rows_of(found).contains(row) <==> found.contains((walk.near)(row)) && row
                < walk.limit && (walk.near)(row).row == row,
        forall|i: int|
            0 <= i < found.len() ==> (#[trigger] crate::graph::rows_of(found)[i]) < walk.limit,
{
    let rows = crate::graph::rows_of(found);
    assert forall|i: int| 0 <= i < rows.len() implies #[trigger] rows[i] < walk.limit
        && (walk.near)(rows[i]) == found[i] by {
        assert(found.contains(found[i]));
    }
    assert forall|i: int, j: int|
        0 <= i < rows.len() && 0 <= j < rows.len() && i != j implies rows[i] != rows[j] by {
        assert(found[i] != found[j]);
    }
    assert forall|row: usize| #[trigger] rows.contains(row) <==> found.contains((walk.near)(row))
        && row < walk.limit && (walk.near)(row).row == row by {
        if rows.contains(row) {
            let i = choose|i: int| 0 <= i < rows.len() && rows[i] == row;
            assert(found[i] == (walk.near)(row));
        }
        if found.contains((walk.near)(row)) && (walk.near)(row).row == row {
            let i = choose|i: int| 0 <= i < found.len() && found[i] == (walk.near)(row);
            assert(rows[i] == row);
        }
    }
}

/// The rows that can be reached from `entries`.
pub open spec fn reachable_rows(walk: Walk, entries: Seq<usize>) -> Set<usize> {
    Set::new(|row: usize| reachable(walk, entries, row))
}

/// Where nothing within one step is left out, nothing that can be reached is.
proof fn lemma_chain_found(
    walk: Walk,
    entries: Seq<usize>,
    found: Seq<Neighbor>,
    row: usize,
    rows: Seq<usize>,
)
    requires
        proper(walk),
        gap_free(walk, entries, found),
        found.len() < walk.width,
        leads(walk, entries, row, rows),
    ensures
        found.contains((walk.near)(row)),
    decreases rows.len(),
{
    let n = rows.len() as int;
    assert(rows[n - 1] == row);
    assert(rows[n - 1] < walk.limit);
    if n == 1 {
        assert(entries.contains(row));
        assert(kept_or_beaten(walk, found, row));
    } else {
        let rest = rows.drop_last();
        assert forall|i: int| 0 <= i < rest.len() implies (#[trigger] rest[i]) < walk.limit by {
            assert(rest[i] == rows[i]);
        }
        assert forall|i: int| 0 < i < rest.len() implies walk.links(rest[i - 1]).contains(
            #[trigger] rest[i],
        ) by {
            assert(rest[i] == rows[i] && rest[i - 1] == rows[i - 1]);
        }
        assert(rest[0] == rows[0]);
        let from = rest.last();
        lemma_chain_found(walk, entries, found, from, rest);
        assert(from == rows[n - 2]);
        assert(walk.links(rows[n - 1 - 1]).contains(rows[n - 1]));
        let x = (walk.near)(from);
        assert(found.contains(x) && walk.links(x.row).contains(row));
        assert(kept_or_beaten(walk, found, row));
    }
}

/// A search finds as many rows as it may keep, or all that can be reached from
/// its entry points where these are fewer.
pub proof fn search_fills_up(walk: Walk, entries: Seq<usize>)
    requires
        proper(walk),
    ensures
        reachable_rows(walk, entries).finite(),
        walk.search(entries).len() == crate::seqs::min(
            walk.width,
            reachable_rows(walk, entries).len(),
        ),
{
    let found = walk.search(entries);
    let rows = crate::graph::rows_of(found);
    let reach = reachable_rows(walk, entries);
    search_finds_true_neighbors(walk, entries);
    search_stays_reachable(walk, entries);
    search_leaves_out_only_for_nearer_rows(walk, entries);
    assert(gap_free(walk, entries, found));
    lemma_found_rows(walk, found);
    rows.unique_seq_to_set();
    let all = Seq::new(walk.limit as nat, |i: int| i as usize);
    all.unique_seq_to_set();
    assert(reach.subset_of(all.to_set())) by {
        assert forall|row: usize| reach.contains(row) implies all.to_set().contains(row) by {
            let chain = choose|chain: Seq<usize>| leads(walk, entries, row, chain);
            assert(chain[chain.len() - 1] < walk.limit);
            assert(all[row as int] == row);
        }
    }
    vstd::set_lib::lemma_len_subset(reach, all.to_set());
    assert(rows.to_set().subset_of(reach)) by {
        assert forall|row: usize| rows.to_set().contains(row) implies reach.contains(row) by {
            let i = choose|i: int| 0 <= i < rows.len() && rows[i] == row;
            assert(found.contains(found[i]));
        }
    }
    vstd::set_lib::lemma_len_subset(rows.to_set(), reach);
    if found.len() < walk.width {
        assert(reach.subset_of(rows.to_set())) by {
            assert forall|row: usize| reach.contains(row) implies rows.to_set().contains(row) by {
                let chain = choose|chain: Seq<usize>| leads(walk, entries, row, chain);
                lemma_chain_found(walk, entries, found, row, chain);
                let i = choose|i: int| 0 <= i < found.len() && found[i] == (walk.near)(row);
                assert(rows[i] == row);
            }
        }
        vstd::set_lib::lemma_len_subset(reach, rows.to_set());
    }
}

/// A search that may keep as many rows as there are misses none: it finds every
/// row that can be reached from its entry points.
pub proof fn wide_search_finds_all_reachable(walk: Walk, entries: Seq<usize>)
    requires
        proper(walk),
        walk.width >= walk.limit,
    ensures
        forall|row: usize| #[trigger]
            reachable(walk, entries, row) ==> walk.search(entries).contains((walk.near)(row)),
{
    let found = walk.search(entries);
    search_finds_true_neighbors(walk, entries);
    search_leaves_out_only_for_nearer_rows(walk, entries);
    assert(gap_free(walk, entries, found));
    assert forall|row: usize| #[trigger] reachable(walk, entries, row) implies found.contains(
        (walk.near)(row),
    ) by {
        let chain = choose|chain: Seq<usize>| leads(walk, entries, row, chain);
        assert(chain[chain.len() - 1] < walk.limit);
        if found.len() < walk.width {
            lemma_chain_found(walk, entries, found, row, chain);
        } else {
            let rows = crate::graph::rows_of(found);
            let all = crate::shuffle::identity(walk.limit as nat);
            lemma_found_rows(walk, found);
            crate::ivf_laws::lemma_identity(walk.limit as nat);
            crate::seqs::lemma_distinct_part(rows, all);
            assert(all.contains(row));
            let i = choose|i: int| 0 <= i < rows.len() && rows[i] == row;
            assert(found.contains(found[i]));
        }
    }
}

/// A search that may keep as many rows as there are is exact: a row that can be
/// reached from its entry points is missing from the first `k` found only if
/// these are `k` rows nearer than it.
pub proof fn wide_search_is_exact(walk: Walk, entries: Seq<usize>, k: nat, row: usize)
    requires
        proper(walk),
        walk.width >= walk.limit,
        reachable(walk, entries, row),
        !crate::ranking::first_few(walk.search(entries), k).contains((walk.near)(row)),
    ensures
        crate::ranking::first_few(walk.search(entries), k).len() == k,
        forall|i: int|
            0 <= i < k ==> crate::ranking::precedes(
                (#[trigger] crate::ranking::first_few(walk.search(entries), k)[i]).rank(),
                (walk.near)(row).rank(),
            ),
{
    search_finds_true_neighbors(walk, entries);
    wide_search_finds_all_reachable(walk, entries);
    crate::ranking::lemma_beyond_first_few(walk.search(entries), k, (walk.near)(row));
}

/// A search that may keep as many rows as there are finds all rows of a set
/// where every two of them are linked and it enters at one of them.
pub proof fn lemma_members_are_found(walk: Walk, entry: usize, members: Set<usize>, k: nat)
    requires
        proper(walk),
        walk.width >= walk.limit,
        k >= walk.limit,
        members.contains(entry),
        forall|a: usize| #[trigger] members.contains(a) ==> a < walk.limit,
        forall|a: usize, b: usize|
            members.contains(a) && members.contains(b) && a != b ==> #[trigger] walk.links(
                a,
            ).contains(b),
    ensures
        forall|a: usize| #[trigger]
            members.contains(a) ==> crate::ranking::first_few(
                crate::graph::rows_of(walk.search(seq![entry])),
                k,
            ).contains(a),
{
    let found = walk.search(seq![entry]);
    let rows = crate::graph::rows_of(found);
    search_finds_true_neighbors(walk, seq![entry]);
    wide_search_finds_all_reachable(walk, seq![entry]);
    lemma_found_rows(walk, found);
    crate::seqs::lemma_distinct_rows_fit(rows, walk.limit as nat);
    assert(crate::ranking::first_few(rows, k) == rows);
    assert forall|a: usize| #[trigger] members.contains(a) implies rows.contains(a) by {
        let path = if a == entry {
            seq![entry]
        } else {
            seq![entry, a]
        };
        assert(seq![entry][0] == entry);
        assert(leads(walk, seq![entry], a, path));
        assert(reachable(walk, seq![entry], a));
        assert((walk.near)(a).row == a);
    }
}

/// Whether every two rows below the limit are linked.
pub open spec fn complete(walk: Walk) -> bool {
    forall|a: usize, b: usize|
        a < walk.limit && b < walk.limit && a != b ==> #[trigger] walk.links(a).contains(b)
}

/// A search of a complete graph is exact, however few rows it may keep: the
/// first `k` that it finds are the `k` nearest of all rows.
pub proof fn complete_search_is_exact(walk: Walk, entries: Seq<usize>, k: nat, entry: usize)
    requires
        proper(walk),
        complete(walk),
        entries.contains(entry),
        entry < walk.limit,
        k <= walk.width,
    ensures
        crate::ranking::first_few(walk.search(entries), k) == crate::ranking::smallest(
            crate::ivf::as_neighbors(walk.near, crate::shuffle::identity(walk.limit as nat)),
            k,
        ),
{
    let found = walk.search(entries);
    let rows = crate::shuffle::identity(walk.limit as nat);
    let all = crate::ivf::as_neighbors(walk.near, rows);
    search_finds_true_neighbors(walk, entries);
    search_leaves_out_only_for_nearer_rows(walk, entries);
    crate::ivf_laws::lemma_identity(walk.limit as nat);
    crate::ivf_laws::lemma_as_neighbors(walk.near, rows);
    let best = found[0];
    assert(found.contains(best));
    assert forall|x: Neighbor| #[trigger] all.contains(x) implies found.contains(x) || (
    found.len() == walk.width && forall|i: int|
        0 <= i < walk.width ==> crate::ranking::precedes(
            (#[trigger] found[i]).rank(),
            x.rank(),
        )) by {
        assert(rows.contains(x.row));
        if x.row != best.row {
            assert(walk.links(best.row).contains(x.row));
            assert(kept_or_beaten(walk, found, x.row));
        }
    }
    assert forall|x: Neighbor| #[trigger] found.contains(x) implies all.contains(x) by {
        assert(rows.contains(x.row));
    }
    crate::ranking::lemma_are_smallest(all, found, walk.width);
    assert(crate::ranking::first_few(found, k) =~= crate::ranking::smallest(all, k));
}

proof fn lemma_descend(walk: Walk, at: usize)
    requires
        at < walk.limit,
    ensures
        ({
            let end = walk.descend(at);
            &&& end < walk.limit
            &&& end == at || crate::ranking::precedes(
                (walk.near)(end).rank(),
                (walk.near)(at).rank(),
            )
            &&& forall|row: usize| #[trigger]
                walk.links(end).contains(row) && row < walk.limit ==> !crate::ranking::precedes(
                    (walk.near)(row).rank(),
                    (walk.near)(end).rank(),
                )
            &&& forall|entries: Seq<usize>| #[trigger]
                reachable(walk, entries, at) ==> reachable(walk, entries, end)
        }),
    decreases walk.nearer(at, walk.limit),
{
    let next = walk.nearest_of(at, walk.links(at));
    crate::graph::lemma_nearest_of(walk, at, walk.links(at));
    if next != at {
        crate::graph::lemma_descent_advances(walk, at);
        lemma_descend(walk, next);
        assert forall|entries: Seq<usize>| #[trigger] reachable(
            walk,
            entries,
            at,
        ) implies reachable(walk, entries, walk.descend(at)) by {
            lemma_reach_further(walk, entries, at, next);
        }
    }
}

/// A descent ends at a row that no linked row is nearer than, never farther
/// than where it began, and reached from there along links.
pub proof fn descent_ends_at_a_local_minimum(walk: Walk, entry: usize)
    requires
        entry < walk.limit,
    ensures
        ({
            let end = walk.greedy(entry);
            &&& end < walk.limit
            &&& end == entry || crate::ranking::precedes(
                (walk.near)(end).rank(),
                (walk.near)(entry).rank(),
            )
            &&& forall|row: usize| #[trigger]
                walk.links(end).contains(row) && row < walk.limit ==> !crate::ranking::precedes(
                    (walk.near)(row).rank(),
                    (walk.near)(end).rank(),
                )
            &&& reachable(walk, seq![entry], end)
        }),
{
    lemma_descend(walk, entry);
    let rows = seq![entry];
    assert(leads(walk, seq![entry], entry, rows));
    assert(reachable(walk, seq![entry], entry));
}

/// Links that stay among the rows of a set lead nowhere else.
pub proof fn lemma_reach_within(walk: Walk, entries: Seq<usize>, row: usize, members: Set<usize>)
    requires
        reachable(walk, entries, row),
        forall|e: usize| #[trigger] entries.contains(e) ==> members.contains(e),
        forall|a: usize, b: usize|
            members.contains(a) && #[trigger] walk.links(a).contains(b) ==> members.contains(b),
    ensures
        members.contains(row),
{
    let rows = choose|rows: Seq<usize>| leads(walk, entries, row, rows);
    lemma_chain_within(walk, entries, row, rows, members);
}

proof fn lemma_chain_within(
    walk: Walk,
    entries: Seq<usize>,
    row: usize,
    rows: Seq<usize>,
    members: Set<usize>,
)
    requires
        leads(walk, entries, row, rows),
        forall|e: usize| #[trigger] entries.contains(e) ==> members.contains(e),
        forall|a: usize, b: usize|
            members.contains(a) && #[trigger] walk.links(a).contains(b) ==> members.contains(b),
    ensures
        members.contains(row),
    decreases rows.len(),
{
    if rows.len() > 1 {
        let rest = rows.drop_last();
        let n = rows.len() as int;
        assert forall|i: int| 0 <= i < rest.len() implies (#[trigger] rest[i]) < walk.limit by {
            assert(rest[i] == rows[i]);
        }
        assert forall|i: int| 0 < i < rest.len() implies walk.links(rest[i - 1]).contains(
            #[trigger] rest[i],
        ) by {
            assert(rest[i] == rows[i] && rest[i - 1] == rows[i - 1]);
        }
        assert(rest[0] == rows[0]);
        lemma_chain_within(walk, entries, rest.last(), rest, members);
        assert(walk.links(rows[n - 1 - 1]).contains(rows[n - 1]));
    }
}

} // verus!
