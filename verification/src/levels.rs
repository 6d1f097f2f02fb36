//! Drawing the levels of the rows of a hierarchy by coin flips.
//!
//! A row climbs a level for each head, until a tail comes or the highest level
//! is reached; the flip that ends the climb is spent too. The rows draw from one
//! run of flips, one after the other.

use vstd::prelude::*;
use vstd::slice::slice_subrange;

verus! {

/// What one flip does to a row at `level`: the level to go on from, or none once
/// the level stands.
pub open spec fn climb_of(level: usize, heads: bool, max_level: usize) -> Option<usize> {
    if heads && level < max_level {
        Some((level + 1) as usize)
    } else {
        None
    }
}

/// One coin flip in the drawing of a row's level: the level to go on from, or
/// none once the level stands. Heads climbs a level, up to `max_level`.
pub fn climb(level: usize, heads: bool, max_level: usize) -> (next: Option<usize>)
    ensures
        next == climb_of(level, heads, max_level),
{
    if heads && level < max_level {
        Some(level + 1)
    } else {
        None
    }
}

/// The number of heads before the first tail.
pub open spec fn leading_heads(flips: Seq<bool>) -> nat
    decreases flips.len(),
{
    if flips.len() == 0 || !flips[0] {
        0
    } else {
        1 + leading_heads(flips.drop_first())
    }
}

/// The level that a row draws with `flips`: a level for each leading head, up to
/// the highest.
pub open spec fn level_drawn(flips: Seq<bool>, max_level: usize) -> nat {
    crate::seqs::min(leading_heads(flips), max_level as nat)
}

/// Where a row at `level` ends that climbs flip by flip.
pub open spec fn climbed(level: usize, flips: Seq<bool>, max_level: usize) -> usize
    decreases flips.len(),
{
    if flips.len() == 0 {
        level
    } else {
        match climb_of(level, flips[0], max_level) {
            Some(next) => climbed(next, flips.drop_first(), max_level),
            None => level,
        }
    }
}

/// Climbing flip by flip adds a level for each leading head, up to the highest.
pub proof fn climbing_counts_leading_heads(level: usize, flips: Seq<bool>, max_level: usize)
    requires
        level <= max_level,
    ensures
        climbed(level, flips, max_level) == crate::seqs::min(
            level as nat + leading_heads(flips),
            max_level as nat,
        ),
    decreases flips.len(),
{
    if flips.len() > 0 && flips[0] && level < max_level {
        climbing_counts_leading_heads((level + 1) as usize, flips.drop_first(), max_level);
    }
}

/// The level that a row draws with `flips`.
pub fn level_of(flips: &[bool], max_level: usize) -> (level: usize)
    ensures
        level == level_drawn(flips@, max_level),
        level == climbed(0, flips@, max_level),
{
    let mut level: usize = 0;
    let mut i: usize = 0;
    assert(flips@.skip(0) =~= flips@);
    while i < flips.len()
        invariant_except_break
            climbed(0, flips@, max_level) == climbed(level, flips@.skip(i as int), max_level),
        invariant
            i <= flips@.len(),
            level <= max_level,
        ensures
            climbed(0, flips@, max_level) == level,
        decreases flips@.len() - i,
    {
        assert(flips@.skip(i as int).drop_first() =~= flips@.skip(i + 1));
        match climb(level, flips[i], max_level) {
            Some(next) => {
                level = next;
            },
            None => {
                break ;
            },
        }
        i += 1;
    }
    proof {
        climbing_counts_leading_heads(0, flips@, max_level);
    }
    level
}

/// The number of flips that the first `rows` rows spend.
pub open spec fn spent(flips: Seq<bool>, max_level: usize, rows: nat) -> nat
    decreases rows,
{
    if rows == 0 {
        0
    } else {
        let before = spent(flips, max_level, (rows - 1) as nat);
        before + level_drawn(flips.skip(before as int), max_level) + 1
    }
}

/// Whether `flips` are enough for the levels of `rows` rows.
pub open spec fn enough_flips(flips: Seq<bool>, max_level: usize, rows: nat) -> bool {
    spent(flips, max_level, rows) <= flips.len()
}

/// The levels that `rows` rows draw, each with the flips that those before it
/// left.
pub open spec fn levels_drawn(flips: Seq<bool>, max_level: usize, rows: nat) -> Seq<usize> {
    Seq::new(
        rows,
        |row: int|
            level_drawn(
                flips.skip(spent(flips, max_level, row as nat) as int),
                max_level,
            ) as usize,
    )
}

pub proof fn lemma_spent_grows(flips: Seq<bool>, max_level: usize, few: nat, more: nat)
    requires
        few <= more,
    ensures
        spent(flips, max_level, few) <= spent(flips, max_level, more),
        few < more ==> spent(flips, max_level, few) + level_drawn(
            flips.skip(spent(flips, max_level, few) as int),
            max_level,
        ) + 1 <= spent(flips, max_level, more),
    decreases more,
{
    if few < more {
        lemma_spent_grows(flips, max_level, few, (more - 1) as nat);
    }
}

/// Draws the levels of `rows` rows.
pub fn draw_levels(flips: &[bool], max_level: usize, rows: usize) -> (levels: Vec<usize>)
    requires
        enough_flips(flips@, max_level, rows as nat),
    ensures
        levels@ == levels_drawn(flips@, max_level, rows as nat),
        forall|row: int|
            0 <= row < levels@.len() ==> (#[trigger] levels@[row]) <= max_level && levels@[row]
                < usize::MAX,
{
    let ghost whole = levels_drawn(flips@, max_level, rows as nat);
    let mut levels: Vec<usize> = Vec::new();
    let mut at: usize = 0;
    let end: usize = flips.len();
    for row in 0..rows
        invariant
            enough_flips(flips@, max_level, rows as nat),
            end == flips@.len(),
            at == spent(flips@, max_level, row as nat),
            whole == levels_drawn(flips@, max_level, rows as nat),
            levels@ == whole.take(row as int),
            forall|i: int|
                0 <= i < levels@.len() ==> (#[trigger] levels@[i]) <= max_level && levels@[i]
                    < usize::MAX,
    {
        proof {
            lemma_spent_grows(flips@, max_level, row as nat, rows as nat);
            assert(flips@.subrange(at as int, end as int) =~= flips@.skip(at as int));
            assert(spent(flips@, max_level, (row + 1) as nat) == at + level_drawn(
                flips@.skip(at as int),
                max_level,
            ) + 1);
        }
        let level: usize = level_of(slice_subrange(flips, at, end), max_level);
        levels.push(level);
        assert(levels@ =~= whole.take(row + 1));
        at = at + level + 1;
    }
    assert(levels@ =~= whole);
    levels
}

/// Whether two runs of flips agree as far as both go.
pub open spec fn agree(left: Seq<bool>, right: Seq<bool>) -> bool {
    forall|i: int|
        0 <= i < left.len() && 0 <= i < right.len() ==> #[trigger] left[i] == right[i]
}

proof fn lemma_leading_heads_agree(left: Seq<bool>, right: Seq<bool>, max_level: usize)
    requires
        agree(left, right),
        level_drawn(left, max_level) < left.len(),
        level_drawn(right, max_level) < right.len(),
    ensures
        level_drawn(left, max_level) == level_drawn(right, max_level),
    decreases left.len(),
{
    if left.len() > 0 && right.len() > 0 {
        assert(left[0] == right[0]);
        if left[0] && max_level > 0 {
            let a = left.drop_first();
            let b = right.drop_first();
            assert forall|i: int| 0 <= i < a.len() && 0 <= i < b.len() implies #[trigger] a[i]
                == b[i] by {
                assert(left[i + 1] == right[i + 1]);
            }
            lemma_leading_heads_agree(a, b, (max_level - 1) as usize);
        }
    }
}

proof fn lemma_spent_agree(left: Seq<bool>, right: Seq<bool>, max_level: usize, rows: nat)
    requires
        agree(left, right),
        enough_flips(left, max_level, rows),
        enough_flips(right, max_level, rows),
    ensures
        spent(left, max_level, rows) == spent(right, max_level, rows),
        forall|row: int|
            0 <= row < rows ==> levels_drawn(left, max_level, rows)[row] == levels_drawn(
                right,
                max_level,
                rows,
            )[row],
    decreases rows,
{
    if rows > 0 {
        let less = (rows - 1) as nat;
        lemma_spent_grows(left, max_level, less, rows);
        lemma_spent_grows(right, max_level, less, rows);
        lemma_spent_agree(left, right, max_level, less);
        let at = spent(left, max_level, less) as int;
        let a = left.skip(at);
        let b = right.skip(at);
        assert forall|i: int| 0 <= i < a.len() && 0 <= i < b.len() implies #[trigger] a[i]
            == b[i] by {
            assert(left[at + i] == right[at + i]);
        }
        lemma_leading_heads_agree(a, b, max_level);
        assert forall|row: int| 0 <= row < rows implies levels_drawn(left, max_level, rows)[row]
            == levels_drawn(right, max_level, rows)[row] by {
            if row < less {
                assert(levels_drawn(left, max_level, less)[row] == levels_drawn(
                    right,
                    max_level,
                    less,
                )[row]);
            }
        }
    }
}

/// The level of a row depends on the flips and the highest level alone: with
/// runs of flips that agree, fewer rows draw the same levels as the first of
/// more rows.
pub proof fn fewer_rows_draw_the_same_levels(
    left: Seq<bool>,
    right: Seq<bool>,
    max_level: usize,
    few: nat,
    more: nat,
)
    requires
        agree(left, right),
        few <= more,
        enough_flips(left, max_level, few),
        enough_flips(right, max_level, more),
    ensures
        levels_drawn(left, max_level, few) == levels_drawn(right, max_level, more).take(
            few as int,
        ),
{
    lemma_spent_grows(right, max_level, few, more);
    lemma_spent_agree(left, right, max_level, few);
    let shorter = levels_drawn(right, max_level, few);
    assert(shorter =~= levels_drawn(right, max_level, more).take(few as int));
    assert(levels_drawn(left, max_level, few) =~= shorter);
}

pub proof fn lemma_levels_in_range(flips: Seq<bool>, max_level: usize, rows: nat)
    requires
        enough_flips(flips, max_level, rows),
        flips.len() <= usize::MAX,
    ensures
        forall|row: int|
            0 <= row < rows ==> (#[trigger] levels_drawn(flips, max_level, rows)[row])
                < usize::MAX,
{
    assert forall|row: int| 0 <= row < rows implies (#[trigger] levels_drawn(
        flips,
        max_level,
        rows,
    )[row]) < usize::MAX by {
        lemma_spent_grows(flips, max_level, row as nat, rows);
    }
}

/// Whether `starts` say where each row begins in the run of flips, and each has
/// the level that the flips from there on give: a head for each level, and a
/// tail behind them unless the highest level is reached. A row begins behind the
/// flip that ended the climb of the one before it.
pub open spec fn drawn_in_turn(
    flips: Seq<bool>,
    max_level: usize,
    levels: Seq<usize>,
    starts: Seq<int>,
) -> bool {
    &&& starts.len() == levels.len() + 1
    &&& starts[0] == 0
    &&& forall|row: int|
        0 <= row < levels.len() ==> #[trigger] drawn_from(flips, max_level, levels, starts, row)
}

/// Whether row `row` has the level that the flips from its start on give.
pub open spec fn drawn_from(
    flips: Seq<bool>,
    max_level: usize,
    levels: Seq<usize>,
    starts: Seq<int>,
    row: int,
) -> bool {
    let end = starts[row] + levels[row];
    &&& 0 <= starts[row] && end < flips.len()
    &&& levels[row] <= max_level
    &&& forall|i: int| starts[row] <= i < end ==> #[trigger] flips[i]
    &&& levels[row] < max_level ==> !flips[end]
    &&& starts[row + 1] == end + 1
}

proof fn lemma_heads(flips: Seq<bool>)
    ensures
        leading_heads(flips) <= flips.len(),
        forall|i: int| 0 <= i < leading_heads(flips) ==> #[trigger] flips[i],
        leading_heads(flips) < flips.len() ==> !flips[leading_heads(flips) as int],
    decreases flips.len(),
{
    if flips.len() > 0 && flips[0] {
        let rest = flips.drop_first();
        lemma_heads(rest);
        assert forall|i: int| 0 <= i < leading_heads(flips) implies #[trigger] flips[i] by {
            if i > 0 {
                assert(rest[i - 1]);
            }
        }
        if leading_heads(flips) < flips.len() {
            assert(!rest[leading_heads(rest) as int]);
        }
    }
}

/// The levels drawn are those that one run of flips gives to the rows in turn.
pub proof fn levels_are_drawn_in_turn(
    flips: &[bool],
    max_level: usize,
    rows: usize,
    levels: Vec<usize>,
)
    requires
        enough_flips(flips@, max_level, rows as nat),
        call_ensures(draw_levels, (flips, max_level, rows), levels),
    ensures
        levels@.len() == rows,
        exists|starts: Seq<int>| #[trigger]
            drawn_in_turn(flips@, max_level, levels@, starts),
{
    lemma_drawn_in_turn(flips@, max_level, rows as nat);
}

pub proof fn lemma_drawn_in_turn(flips: Seq<bool>, max_level: usize, rows: nat)
    requires
        enough_flips(flips, max_level, rows),
    ensures
        exists|starts: Seq<int>| #[trigger]
            drawn_in_turn(flips, max_level, levels_drawn(flips, max_level, rows), starts),
{
    let levels = levels_drawn(flips, max_level, rows);
    let starts = Seq::new(rows + 1, |row: int| spent(flips, max_level, row as nat) as int);
    assert forall|row: int| 0 <= row < rows implies #[trigger] drawn_from(
        flips,
        max_level,
        levels,
        starts,
        row,
    ) by {
        let at = spent(flips, max_level, row as nat) as int;
        let rest = flips.skip(at);
        lemma_spent_grows(flips, max_level, row as nat, rows);
        lemma_heads(rest);
        let level = level_drawn(rest, max_level);
        assert forall|i: int| at <= i < at + level implies #[trigger] flips[i] by {
            assert(rest[i - at]);
        }
        if level < max_level {
            assert(!rest[level as int]);
        }
    }
    assert(drawn_in_turn(flips, max_level, levels, starts));
}

/// A row climbs by one flip where that is heads and its level is not the highest.
pub proof fn heads_climb_a_level(level: usize, heads: bool, max_level: usize, next: Option<usize>)
    requires
        call_ensures(climb, (level, heads, max_level), next),
    ensures
        match next {
            Some(above) => heads && level < max_level && above == level + 1,
            None => !heads || level >= max_level,
        },
{
}

/// The level that a row draws: all flips before it are heads, and it is the
/// highest level, or the flip at it is tails, or there is none.
pub proof fn a_level_counts_heads(flips: &[bool], max_level: usize, level: usize)
    requires
        call_ensures(level_of, (flips, max_level), level),
    ensures
        level <= max_level,
        level <= flips@.len(),
        forall|i: int| 0 <= i < level ==> #[trigger] flips@[i],
        level == max_level || level == flips@.len() || !flips@[level as int],
{
    lemma_heads(flips@);
}

} // verus!
