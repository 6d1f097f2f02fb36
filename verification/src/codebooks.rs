//! Product quantisation: a vector is cut into slices, and each slice stands for
//! the nearest of a few codewords.

use vstd::prelude::*;
use vstd::slice::slice_subrange;

use crate::bits::is_finite_32;
use crate::clusters::lists_from_assignments;
use crate::math::VectorMath;
use crate::ranking::{Ranked, ScoredRow};
use crate::seqs::{copied, same_rows, smaller};
use crate::shuffle::shuffle;
use crate::types::VectorError;

verus! {

/// The factor that spreads the seeds of the codebooks.
pub const SEED_STEP: u64 = 0x9e37_79b9_7f4a_7c15;

/// The seed of the codebook of a subquantizer: `seed` and a step for each
/// subquantizer up to it, modulo the range of the type.
pub open spec fn seed_of(seed: u64, subquantizer: usize) -> int {
    (seed + (subquantizer + 1) * SEED_STEP) % 0x1_0000_0000_0000_0000
}

/// The seed of the codebook of a subquantizer.
pub fn codebook_seed(seed: u64, subquantizer: usize) -> (result: u64)
    ensures
        result == seed_of(seed, subquantizer),
{
    let count: u64 = (subquantizer as u64).wrapping_add(1);
    let step: u64 = count.wrapping_mul(SEED_STEP);
    proof {
        let range: int = 0x1_0000_0000_0000_0000;
        let next = subquantizer + 1;
        assert(count == next % range);
        vstd::arithmetic::div_mod::lemma_mul_mod_noop_left(next, SEED_STEP as int, range);
        assert(step == (next * SEED_STEP) % range);
        vstd::arithmetic::div_mod::lemma_add_mod_noop(seed as int, next * SEED_STEP, range);
        vstd::arithmetic::div_mod::lemma_small_mod(seed as nat, range as nat);
        assert(seed_of(seed, subquantizer) == (seed + step) % range);
    }
    seed.wrapping_add(step)
}

/// Two multiples of a step that has an inverse are apart by no whole number of
/// turns, unless their counts are.
proof fn lemma_turns(gap: int, turns: int, step: int, inverse: int, rounds: int, range: int)
    requires
        gap * step == range * turns,
        step * inverse == 1 + range * rounds,
    ensures
        gap == range * (turns * inverse - gap * rounds),
{
    assert((gap * step) * inverse == gap * (step * inverse)) by (nonlinear_arith);
    assert((range * turns) * inverse == range * (turns * inverse)) by (nonlinear_arith);
    assert(gap * (1 + range * rounds) == gap + range * (gap * rounds)) by (nonlinear_arith);
    assert(range * (turns * inverse - gap * rounds) == range * (turns * inverse) - range * (gap
        * rounds)) by (nonlinear_arith);
}

/// The seed of the first subquantizer is a step beyond the seed of the index, and
/// each is a step beyond that of the subquantizer before it, modulo the range of
/// the type; a step is that range divided by the golden ratio.
pub proof fn seeds_go_up_by_steps(seed: u64, subquantizer: usize, this: u64, next: u64, first: u64)
    requires
        subquantizer < usize::MAX,
        call_ensures(codebook_seed, (seed, 0usize), first),
        call_ensures(codebook_seed, (seed, subquantizer), this),
        call_ensures(codebook_seed, (seed, (subquantizer + 1) as usize), next),
    ensures
        first as int == (seed + 0x9e37_79b9_7f4a_7c15int) % 0x1_0000_0000_0000_0000,
        next as int == (this + 0x9e37_79b9_7f4a_7c15int) % 0x1_0000_0000_0000_0000,
{
    let range: int = 0x1_0000_0000_0000_0000;
    let step: int = 0x9e37_79b9_7f4a_7c15;
    let x = seed + (subquantizer + 1) * step;
    assert((subquantizer + 2) * step == (subquantizer + 1) * step + step) by (nonlinear_arith);
    vstd::arithmetic::div_mod::lemma_add_mod_noop(x, step, range);
    vstd::arithmetic::div_mod::lemma_small_mod(step as nat, range as nat);
}

/// No two subquantizers share a seed.
pub proof fn seeds_differ(seed: u64, left: usize, right: usize)
    requires
        left != right,
    ensures
        seed_of(seed, left) != seed_of(seed, right),
{
    let range: int = 0x1_0000_0000_0000_0000;
    let step = SEED_STEP as int;
    if seed_of(seed, left) == seed_of(seed, right) {
        let x = seed + (left + 1) * step;
        let y = seed + (right + 1) * step;
        vstd::arithmetic::div_mod::lemma_fundamental_div_mod(x, range);
        vstd::arithmetic::div_mod::lemma_fundamental_div_mod(y, range);
        let gap = left - right;
        let turns = x / range - y / range;
        assert(gap * step == (left + 1) * step - (right + 1) * step) by (nonlinear_arith)
            requires
                gap == left - right,
        ;
        assert(range * turns == range * (x / range) - range * (y / range)) by (nonlinear_arith)
            requires
                turns == x / range - y / range,
        ;
        let inverse: int = 0xf1de_83e1_9937_733d;
        let rounds: int = 0x957b_bf35_006e_d677;
        lemma_turns(gap, turns, step, inverse, rounds, range);
        let whole = turns * inverse - gap * rounds;
        assert(whole == 0) by (nonlinear_arith)
            requires
                gap == range * whole,
                -range < gap < range,
                range > 0,
        ;
    }
}

/// The codewords, each with its squared distance from `slice`.
pub open spec fn codeword_scores<M: VectorMath>(
    math: &M,
    slice: Seq<u32>,
    codebook: Seq<Seq<u32>>,
) -> Seq<ScoredRow> {
    Seq::new(
        codebook.len(),
        |c: int|
            ScoredRow { row: c as usize, score: math.squared_distance_of(slice, codebook[c]) },
    )
}

/// The code of a slice: the codeword nearest to it, the first of them where
/// several are.
pub open spec fn code_of<M: VectorMath>(
    math: &M,
    slice: Seq<u32>,
    codebook: Seq<Seq<u32>>,
) -> usize {
    crate::ranking::least(codeword_scores(math, slice, codebook)).row
}

/// The code of a slice names a codeword, and every other one is farther, or as
/// far and behind it.
pub proof fn code_names_the_nearest<M: VectorMath>(
    math: &M,
    slice: Seq<u32>,
    codebook: Seq<Seq<u32>>,
)
    requires
        0 < codebook.len() <= usize::MAX,
    ensures
        code_of(math, slice, codebook) < codebook.len(),
        forall|c: int|
            0 <= c < codebook.len() && c != code_of(math, slice, codebook)
                ==> crate::ranking::precedes(
                codeword_scores(math, slice, codebook)[code_of(
                    math,
                    slice,
                    codebook,
                ) as int].rank(),
                (#[trigger] codeword_scores(math, slice, codebook)[c]).rank(),
            ),
{
    let items = codeword_scores(math, slice, codebook);
    crate::ranking::least_is_the_minimum(items);
    let i = choose|i: int| 0 <= i < items.len() && items[i] == crate::ranking::least(items);
    assert(items[i].row == i);
}

/// The code of a slice.
pub fn nearest_codeword<M: VectorMath>(
    math: &M,
    slice: &[u32],
    codebook: &[Vec<u32>],
) -> (code: usize)
    requires
        crate::math::lawful(math),
        codebook@.len() > 0,
    ensures
        code == code_of(math, slice@, crate::dataset::contents(codebook@)),
        code < codebook@.len(),
{
    let ghost items = codeword_scores(math, slice@, crate::dataset::contents(codebook@));
    let mut best = ScoredRow {
        row: 0,
        score: math.squared_distance(slice, codebook[0].as_slice()),
    };
    for c in 1..codebook.len()
        invariant
            crate::math::lawful(math),
            items == codeword_scores(math, slice@, crate::dataset::contents(codebook@)),
            best.row < c <= codebook@.len(),
            best == crate::ranking::least(items.take(c as int)),
    {
        let next = ScoredRow {
            row: c,
            score: math.squared_distance(slice, codebook[c].as_slice()),
        };
        assert(items[c as int] == next);
        assert(items.take(c + 1).drop_last() =~= items.take(c as int));
        if next.before(&best) {
            best = next;
        }
    }
    assert(items.take(items.len() as int) =~= items);
    best.row
}

/// Whether every vector has `end` components or more.
pub open spec fn reach(vectors: Seq<Vec<u32>>, end: int) -> bool {
    forall|row: int| 0 <= row < vectors.len() ==> end <= (#[trigger] vectors[row]).len()
}

/// The `width` components of each vector from `offset` on.
pub open spec fn slices(vectors: Seq<Seq<u32>>, offset: int, width: int) -> Seq<Seq<u32>> {
    Seq::new(vectors.len(), |row: int| vectors[row].subrange(offset, offset + width))
}

/// The code of each slice.
pub open spec fn codes_of<M: VectorMath>(
    math: &M,
    pieces: Seq<Seq<u32>>,
    codebook: Seq<Seq<u32>>,
) -> Seq<usize> {
    Seq::new(pieces.len(), |row: int| code_of(math, pieces[row], codebook))
}

/// The codebook with each codeword moved to the mean of the slices that it
/// stands for. A codeword that stands for none stays.
pub open spec fn moved<M: VectorMath>(
    math: &M,
    pieces: Seq<Seq<u32>>,
    width: nat,
    codebook: Seq<Seq<u32>>,
    codes: Seq<usize>,
) -> Seq<Seq<u32>> {
    Seq::new(
        codebook.len(),
        |c: int|
            {
                let rows = crate::clusters::members(codes, c);
                if rows.len() == 0 {
                    codebook[c]
                } else {
                    crate::clusters::mean_vector(math, pieces, rows, width)
                }
            },
    )
}

/// Moves each codeword to the mean of the slices that it stands for.
pub fn update_codebook<M: VectorMath>(
    math: &M,
    codebook: &mut Vec<Vec<u32>>,
    residuals: &[Vec<u32>],
    assignments: &[usize],
    offset: usize,
    slice_dim: usize,
)
    requires
        crate::math::lawful(math),
        assignments@.len() <= residuals@.len(),
        crate::clusters::in_clusters(assignments@, old(codebook)@.len()),
        reach(residuals@.take(assignments@.len() as int), offset + slice_dim),
    ensures
        final(codebook)@.len() == old(codebook)@.len(),
        crate::dataset::contents(final(codebook)@) == moved(
            math,
            slices(crate::dataset::contents(residuals@), offset as int, slice_dim as int),
            slice_dim as nat,
            crate::dataset::contents(old(codebook)@),
            assignments@,
        ),
        forall|c: int|
            0 <= c < old(codebook)@.len() ==> #[trigger] crate::cluster_laws::moved_by_codes(
                math,
                slices(crate::dataset::contents(residuals@), offset as int, slice_dim as int),
                slice_dim as nat,
                crate::dataset::contents(old(codebook)@),
                crate::dataset::contents(final(codebook)@),
                assignments@,
                c,
            ),
{
    let size: usize = codebook.len();
    let lists = lists_from_assignments(assignments, size);
    assert(lists@.len() == crate::dataset::contents(lists@).len());
    let ghost start = codebook@;
    let ghost pieces = slices(
        crate::dataset::contents(residuals@),
        offset as int,
        slice_dim as int,
    );
    let ghost end = moved(
        math,
        pieces,
        slice_dim as nat,
        crate::dataset::contents(start),
        assignments@,
    );
    for c in 0..size
        invariant
            crate::math::lawful(math),
            size == start.len(),
            codebook@.len() == size,
            assignments@.len() <= residuals@.len(),
            lists@.len() == size,
            assignments.len() == assignments@.len(),
            crate::dataset::contents(lists@) == crate::clusters::partition(
                assignments@,
                size as nat,
            ),
            reach(residuals@.take(assignments@.len() as int), offset + slice_dim),
            pieces == slices(
                crate::dataset::contents(residuals@),
                offset as int,
                slice_dim as int,
            ),
            end == moved(
                math,
                pieces,
                slice_dim as nat,
                crate::dataset::contents(start),
                assignments@,
            ),
            forall|i: int| 0 <= i < c ==> (#[trigger] codebook@[i])@ == end[i],
            forall|i: int| c <= i < size ==> #[trigger] codebook@[i] == start[i],
    {
        assert(lists@[c as int]@ == crate::dataset::contents(lists@)[c as int]);
        let ghost rows = lists@[c as int]@;
        assert(rows == crate::clusters::members(assignments@, c as int));
        if lists[c].len() > 0 {
            proof {
                crate::clusters::members_are_the_rows_assigned(assignments@, c as int);
                assert forall|j: int| 0 <= j < rows.len() implies (#[trigger] rows[j])
                    < residuals@.len() && offset + slice_dim <= residuals@[rows[j] as int].len() by {
                    assert(rows.contains(rows[j]));
                    assert(residuals@.take(assignments@.len() as int)[rows[j] as int]
                        == residuals@[rows[j] as int]);
                }
            }
            let mean = mean_of_slices(
                math,
                residuals,
                lists[c].as_slice(),
                offset,
                slice_dim,
            );
            codebook.set(c, mean);
        }
    }
    assert(crate::dataset::contents(codebook@) =~= end);
    proof {
        let before = crate::dataset::contents(start);
        assert forall|c: int| 0 <= c < start.len() implies #[trigger]
            crate::cluster_laws::moved_by_codes(
            math,
            pieces,
            slice_dim as nat,
            before,
            end,
            assignments@,
            c,
        ) by {
            crate::cluster_laws::lemma_moved_by_codes(
                math,
                pieces,
                slice_dim as nat,
                before,
                assignments@,
                c,
            );
        }
    }
}

/// The mean of the slices of the rows `list`.
fn mean_of_slices<M: VectorMath>(
    math: &M,
    residuals: &[Vec<u32>],
    list: &[usize],
    offset: usize,
    slice_dim: usize,
) -> (mean: Vec<u32>)
    requires
        crate::math::lawful(math),
        forall|j: int|
            0 <= j < list@.len() ==> (#[trigger] list@[j]) < residuals@.len() && offset + slice_dim
                <= residuals@[list@[j] as int].len(),
    ensures
        mean@ == crate::clusters::mean_vector(
            math,
            slices(crate::dataset::contents(residuals@), offset as int, slice_dim as int),
            list@,
            slice_dim as nat,
        ),
{
    let mut mean: Vec<u32> = Vec::new();
    let ghost pieces = slices(
        crate::dataset::contents(residuals@),
        offset as int,
        slice_dim as int,
    );
    let ghost whole = crate::clusters::mean_vector(math, pieces, list@, slice_dim as nat);
    for i in 0..slice_dim
        invariant
            crate::math::lawful(math),
            forall|j: int|
                0 <= j < list@.len() ==> (#[trigger] list@[j]) < residuals@.len() && offset + slice_dim
                    <= residuals@[list@[j] as int].len(),
            pieces == slices(
                crate::dataset::contents(residuals@),
                offset as int,
                slice_dim as int,
            ),
            whole == crate::clusters::mean_vector(math, pieces, list@, slice_dim as nat),
            mean@ == whole.take(i as int),
    {
        let mut values: Vec<u32> = Vec::new();
        let ghost column = crate::clusters::column(pieces, list@, i as int);
        for j in 0..list.len()
            invariant
                i < slice_dim,
                forall|j: int|
                    0 <= j < list@.len() ==> (#[trigger] list@[j]) < residuals@.len() && offset + slice_dim
                        <= residuals@[list@[j] as int].len(),
                pieces == slices(
                    crate::dataset::contents(residuals@),
                    offset as int,
                    slice_dim as int,
                ),
                column == crate::clusters::column(pieces, list@, i as int),
                values@ == column.take(j as int),
        {
            let row: usize = list[j];
            assert(list@[j as int] < residuals@.len());
            values.push(residuals[row][offset + i]);
            assert(values@ =~= column.take(j + 1));
        }
        assert(values@ =~= column);
        mean.push(math.mean(values.as_slice()));
        assert(mean@ =~= whole.take(i + 1));
    }
    assert(mean@ =~= whole);
    mean
}

/// The codebook after at most `rounds` more rounds: in each, slices are coded
/// and the codewords moved; it ends early once no code changes.
pub open spec fn refined<M: VectorMath>(
    math: &M,
    pieces: Seq<Seq<u32>>,
    width: nat,
    codebook: Seq<Seq<u32>>,
    codes: Seq<usize>,
    rounds: nat,
) -> Seq<Seq<u32>>
    decreases rounds,
{
    if rounds == 0 {
        codebook
    } else {
        let next = codes_of(math, pieces, codebook);
        if next == codes {
            codebook
        } else {
            refined(
                math,
                pieces,
                width,
                moved(math, pieces, width, codebook, next),
                next,
                (rounds - 1) as nat,
            )
        }
    }
}

/// The first codebook: the slices of the first `size` rows drawn.
pub open spec fn first_codebook(
    pieces: Seq<Seq<u32>>,
    size: nat,
    draws: Seq<usize>,
) -> Seq<Seq<u32>> {
    Seq::new(size, |c: int| pieces[crate::shuffle::shuffled(pieces.len(), draws)[c] as int])
}

/// The codebook that training ends up with.
pub open spec fn trained<M: VectorMath>(
    math: &M,
    pieces: Seq<Seq<u32>>,
    width: nat,
    size: nat,
    iterations: nat,
    draws: Seq<usize>,
) -> Seq<Seq<u32>> {
    refined(
        math,
        pieces,
        width,
        first_codebook(pieces, size, draws),
        Seq::new(pieces.len(), |row: int| usize::MAX),
        iterations,
    )
}

/// The code of each slice.
fn code_rows<M: VectorMath>(
    math: &M,
    residuals: &[Vec<u32>],
    codebook: &[Vec<u32>],
    offset: usize,
    slice_dim: usize,
) -> (codes: Vec<usize>)
    requires
        crate::math::lawful(math),
        codebook@.len() > 0,
        reach(residuals@, offset + slice_dim),
    ensures
        codes@ == codes_of(
            math,
            slices(crate::dataset::contents(residuals@), offset as int, slice_dim as int),
            crate::dataset::contents(codebook@),
        ),
        crate::clusters::in_clusters(codes@, codebook@.len()),
{
    let mut codes: Vec<usize> = Vec::new();
    let ghost whole = codes_of(
        math,
        slices(crate::dataset::contents(residuals@), offset as int, slice_dim as int),
        crate::dataset::contents(codebook@),
    );
    for row in 0..residuals.len()
        invariant
            crate::math::lawful(math),
            codebook@.len() > 0,
            reach(residuals@, offset + slice_dim),
            whole == codes_of(
                math,
                slices(crate::dataset::contents(residuals@), offset as int, slice_dim as int),
                crate::dataset::contents(codebook@),
            ),
            codes@ == whole.take(row as int),
            crate::clusters::in_clusters(codes@, codebook@.len()),
    {
        assert(offset + slice_dim <= residuals@[row as int].len());
        let piece = slice_subrange(residuals[row].as_slice(), offset, offset + slice_dim);
        codes.push(nearest_codeword(math, piece, codebook));
        assert(codes@ =~= whole.take(row + 1));
    }
    assert(codes@ =~= whole);
    codes
}

/// Trains a codebook of `codebook_size` codewords for the slices of the
/// residuals at `offset`.
pub fn train_codebook<M: VectorMath>(
    math: &M,
    residuals: &[Vec<u32>],
    offset: usize,
    slice_dim: usize,
    codebook_size: usize,
    iterations: usize,
    draws: &[usize],
) -> (codebook: Vec<Vec<u32>>)
    requires
        crate::math::lawful(math),
        0 < codebook_size <= residuals@.len(),
        crate::shuffle::valid_draws(residuals@.len(), draws@),
        reach(residuals@, offset + slice_dim),
    ensures
        crate::dataset::contents(codebook@) == trained(
            math,
            slices(crate::dataset::contents(residuals@), offset as int, slice_dim as int),
            slice_dim as nat,
            codebook_size as nat,
            iterations as nat,
            draws@,
        ),
        codebook@.len() == codebook_size,
        crate::dataset::uniform(crate::dataset::contents(codebook@), slice_dim as int),
{
    let rows: usize = residuals.len();
    let order = shuffle(rows, draws);
    let ghost pieces = slices(
        crate::dataset::contents(residuals@),
        offset as int,
        slice_dim as int,
    );
    let ghost first = first_codebook(pieces, codebook_size as nat, draws@);
    let mut codebook: Vec<Vec<u32>> = Vec::new();
    for c in 0..codebook_size
        invariant
            codebook_size <= residuals@.len(),
            order@ == crate::shuffle::shuffled(residuals@.len(), draws@),
            crate::shuffle::permutes(order@, residuals@.len()),
            reach(residuals@, offset + slice_dim),
            pieces == slices(
                crate::dataset::contents(residuals@),
                offset as int,
                slice_dim as int,
            ),
            first == first_codebook(pieces, codebook_size as nat, draws@),
            codebook@.len() == c,
            forall|i: int|
                0 <= i < c ==> (#[trigger] codebook@[i])@ == first[i] && codebook@[i]@.len()
                    == slice_dim,
    {
        let row: usize = order[c];
        assert(order@[c as int] < residuals@.len());
        assert(offset + slice_dim <= residuals@[row as int].len());
        let piece = slice_subrange(residuals[row].as_slice(), offset, offset + slice_dim);
        codebook.push(copied(piece));
    }
    assert(crate::dataset::contents(codebook@) =~= first);
    let mut assignments: Vec<usize> = Vec::new();
    for i in 0..rows
        invariant
            assignments@.len() == i,
            forall|j: int| 0 <= j < i ==> #[trigger] assignments@[j] == usize::MAX,
    {
        assignments.push(usize::MAX);
    }
    assert(assignments@ =~= Seq::new(pieces.len(), |row: int| usize::MAX));
    let mut left: usize = iterations;
    while left > 0
        invariant_except_break
            trained(
                math,
                pieces,
                slice_dim as nat,
                codebook_size as nat,
                iterations as nat,
                draws@,
            ) == refined(
                math,
                pieces,
                slice_dim as nat,
                crate::dataset::contents(codebook@),
                assignments@,
                left as nat,
            ),
        invariant
            crate::math::lawful(math),
            codebook_size > 0,
            codebook@.len() == codebook_size,
            reach(residuals@, offset + slice_dim),
            pieces == slices(
                crate::dataset::contents(residuals@),
                offset as int,
                slice_dim as int,
            ),
            crate::dataset::uniform(crate::dataset::contents(codebook@), slice_dim as int),
        ensures
            trained(
                math,
                pieces,
                slice_dim as nat,
                codebook_size as nat,
                iterations as nat,
                draws@,
            ) == crate::dataset::contents(codebook@),
        decreases left,
    {
        let next = code_rows(math, residuals, codebook.as_slice(), offset, slice_dim);
        if same_rows(next.as_slice(), assignments.as_slice()) {
            break ;
        }
        assignments = next;
        let ghost before = crate::dataset::contents(codebook@);
        assert(residuals@.take(assignments@.len() as int) =~= residuals@);
        update_codebook(
            math,
            &mut codebook,
            residuals,
            assignments.as_slice(),
            offset,
            slice_dim,
        );
        proof {
            let after = crate::dataset::contents(codebook@);
            assert forall|c: int| 0 <= c < after.len() implies (#[trigger] after[c]).len()
                == slice_dim by {
                assert(before[c].len() == slice_dim);
            }
        }
        left -= 1;
    }
    codebook
}

/// What a vector differs by from a centroid, component by component.
pub open spec fn residual<M: VectorMath>(
    math: &M,
    vector: Seq<u32>,
    centroid: Seq<u32>,
) -> Seq<u32> {
    Seq::new(
        crate::seqs::min(vector.len(), centroid.len()),
        |i: int| math.difference_of(vector[i], centroid[i]),
    )
}

/// What a vector differs by from a centroid. Refused where a difference is too
/// large for a finite number.
pub fn finite_residual<M: VectorMath>(math: &M, vector: &[u32], centroid: &[u32]) -> (result:
    Result<Vec<u32>, VectorError>)
    requires
        crate::math::lawful(math),
    ensures
        match result {
            Ok(found) => found@ == residual(math, vector@, centroid@)
                && crate::dataset::all_finite(found@),
            Err(VectorError::InvalidConfig(text)) => !crate::dataset::all_finite(
                residual(math, vector@, centroid@),
            ) && text@ == "IVF-PQ training residuals must remain finite"@,
            Err(_) => false,
        },
{
    let len: usize = smaller(vector.len(), centroid.len());
    let mut found: Vec<u32> = Vec::new();
    let mut finite = true;
    let ghost whole = residual(math, vector@, centroid@);
    for i in 0..len
        invariant
            crate::math::lawful(math),
            whole == residual(math, vector@, centroid@),
            len == crate::seqs::min(vector@.len(), centroid@.len()),
            found@ == whole.take(i as int),
            finite == crate::dataset::all_finite(found@),
    {
        let difference: u32 = math.subtract(vector[i], centroid[i]);
        let ghost before = found@;
        found.push(difference);
        assert(found@ =~= whole.take(i + 1));
        let this_finite = is_finite_32(difference);
        proof {
            if finite && this_finite {
                assert forall|j: int| 0 <= j < found@.len() implies crate::bits::finite_32(
                    #[trigger] found@[j],
                ) by {
                    if j < i {
                        assert(crate::bits::finite_32(before[j]));
                    }
                }
            } else if !this_finite {
                assert(!crate::bits::finite_32(found@[i as int]));
            } else {
                let j = choose|j: int|
                    0 <= j < before.len() && !crate::bits::finite_32(#[trigger] before[j]);
                assert(found@[j] == before[j]);
            }
        }
        finite = finite && this_finite;
    }
    assert(found@ =~= whole);
    if !finite {
        return Err(
            VectorError::InvalidConfig("IVF-PQ training residuals must remain finite"),
        );
    }
    Ok(found)
}

/// The slice of a vector that subquantizer `s` codes.
pub open spec fn slice_of<T>(vector: Seq<T>, s: int, slice_dim: int) -> Seq<T> {
    vector.subrange(s * slice_dim, s * slice_dim + slice_dim)
}

/// The codes of a vector, one for each codebook.
pub open spec fn encoded<M: VectorMath>(
    math: &M,
    vector: Seq<u32>,
    codebooks: Seq<Seq<Seq<u32>>>,
    slice_dim: int,
) -> Seq<u8> {
    Seq::new(
        codebooks.len(),
        |s: int| code_of(math, slice_of(vector, s, slice_dim), codebooks[s]) as u8,
    )
}

/// The codewords of all codebooks.
pub open spec fn books(codebooks: Seq<Vec<Vec<u32>>>) -> Seq<Seq<Seq<u32>>> {
    Seq::new(codebooks.len(), |s: int| crate::dataset::contents(codebooks[s]@))
}

/// Whether there are `subquantizers` codebooks of `size` codewords of dimension
/// `slice_dim`.
pub open spec fn shaped(
    codebooks: Seq<Seq<Seq<u32>>>,
    subquantizers: int,
    size: int,
    slice_dim: int,
) -> bool {
    &&& codebooks.len() == subquantizers
    &&& forall|s: int|
        0 <= s < codebooks.len() ==> (#[trigger] codebooks[s]).len() == size
            && crate::dataset::uniform(codebooks[s], slice_dim)
}

pub proof fn lemma_slice_fits(s: int, subquantizers: int, slice_dim: int)
    requires
        0 <= s < subquantizers,
        0 <= slice_dim,
    ensures
        0 <= s * slice_dim,
        s * slice_dim + slice_dim <= subquantizers * slice_dim,
{
    assert(0 <= s * slice_dim && s * slice_dim + slice_dim <= subquantizers * slice_dim)
        by (nonlinear_arith)
        requires
            0 <= s < subquantizers,
            0 <= slice_dim,
    ;
}

/// Codes a residual.
pub fn encode_residual<M: VectorMath>(
    math: &M,
    vector: &[u32],
    codebooks: &[Vec<Vec<u32>>],
    slice_dim: usize,
) -> (codes: Vec<u8>)
    requires
        crate::math::lawful(math),
        codebooks@.len() * slice_dim <= vector.len(),
        forall|s: int|
            0 <= s < codebooks@.len() ==> 0 < (#[trigger] codebooks@[s])@.len() <= 256,
    ensures
        codes@ == encoded(math, vector@, books(codebooks@), slice_dim as int),
        codes@.len() == codebooks@.len(),
        forall|s: int|
            0 <= s < codes@.len() ==> (#[trigger] codes@[s]) < codebooks@[s]@.len() && codes@[s]
                == code_of(
                math,
                slice_of(vector@, s, slice_dim as int),
                books(codebooks@)[s],
            ),
{
    let mut codes: Vec<u8> = Vec::new();
    let ghost whole = encoded(math, vector@, books(codebooks@), slice_dim as int);
    for s in 0..codebooks.len()
        invariant
            crate::math::lawful(math),
            codebooks@.len() * slice_dim <= vector.len(),
            forall|s: int|
                0 <= s < codebooks@.len() ==> 0 < (#[trigger] codebooks@[s])@.len() <= 256,
            whole == encoded(math, vector@, books(codebooks@), slice_dim as int),
            codes@ == whole.take(s as int),
            forall|i: int|
                0 <= i < codes@.len() ==> (#[trigger] codes@[i]) < codebooks@[i]@.len()
                    && codes@[i] == code_of(
                    math,
                    slice_of(vector@, i, slice_dim as int),
                    books(codebooks@)[i],
                ),
    {
        proof {
            lemma_slice_fits(s as int, codebooks@.len() as int, slice_dim as int);
        }
        let start: usize = s * slice_dim;
        let piece = slice_subrange(vector, start, start + slice_dim);
        assert(codebooks@[s as int]@.len() <= 256);
        let code: usize = nearest_codeword(math, piece, codebooks[s].as_slice());
        codes.push(code as u8);
        assert(codes@ =~= whole.take(s + 1));
    }
    assert(codes@ =~= whole);
    codes
}

/// What a query differs by from a centroid, in double precision.
pub open spec fn wide_residual<M: VectorMath>(
    math: &M,
    query: Seq<u32>,
    centroid: Seq<u32>,
) -> Seq<u64> {
    Seq::new(
        crate::seqs::min(query.len(), centroid.len()),
        |i: int| math.wide_difference_of(query[i], centroid[i]),
    )
}

/// What a query differs by from a centroid, in double precision.
pub fn query_residual<M: VectorMath>(math: &M, query: &[u32], centroid: &[u32]) -> (result: Vec<
    u64,
>)
    requires
        crate::math::lawful(math),
    ensures
        result@ == wide_residual(math, query@, centroid@),
{
    let len: usize = smaller(query.len(), centroid.len());
    let mut result: Vec<u64> = Vec::new();
    let ghost whole = wide_residual(math, query@, centroid@);
    for i in 0..len
        invariant
            crate::math::lawful(math),
            whole == wide_residual(math, query@, centroid@),
            len == crate::seqs::min(query@.len(), centroid@.len()),
            result@ == whole.take(i as int),
    {
        result.push(math.subtract_wide(query[i], centroid[i]));
        assert(result@ =~= whole.take(i + 1));
    }
    assert(result@ =~= whole);
    result
}

/// The squared distances of the slices of a residual from all codewords.
pub open spec fn tables_of<M: VectorMath>(
    math: &M,
    residual: Seq<u64>,
    codebooks: Seq<Seq<Seq<u32>>>,
    slice_dim: int,
) -> Seq<Seq<u64>> {
    Seq::new(
        codebooks.len(),
        |s: int|
            Seq::new(
                codebooks[s].len(),
                |c: int|
                    math.residual_distance_of(
                        slice_of(residual, s, slice_dim),
                        codebooks[s][c],
                    ),
            ),
    )
}

/// The squared distances of the slices of a residual from all codewords.
pub fn lookup_tables<M: VectorMath>(
    math: &M,
    residual: &[u64],
    codebooks: &[Vec<Vec<u32>>],
    slice_dim: usize,
) -> (tables: Vec<Vec<u64>>)
    requires
        crate::math::lawful(math),
        codebooks@.len() * slice_dim <= residual.len(),
    ensures
        crate::dataset::contents(tables@) == tables_of(
            math,
            residual@,
            books(codebooks@),
            slice_dim as int,
        ),
{
    let mut tables: Vec<Vec<u64>> = Vec::new();
    let ghost whole = tables_of(math, residual@, books(codebooks@), slice_dim as int);
    for s in 0..codebooks.len()
        invariant
            crate::math::lawful(math),
            codebooks@.len() * slice_dim <= residual.len(),
            whole == tables_of(math, residual@, books(codebooks@), slice_dim as int),
            tables@.len() == s,
            forall|i: int| 0 <= i < s ==> (#[trigger] tables@[i])@ == whole[i],
    {
        proof {
            lemma_slice_fits(s as int, codebooks@.len() as int, slice_dim as int);
        }
        let start: usize = s * slice_dim;
        let piece = slice_subrange(residual, start, start + slice_dim);
        let mut table: Vec<u64> = Vec::new();
        let codebook = &codebooks[s];
        for c in 0..codebook.len()
            invariant
                crate::math::lawful(math),
                s < codebooks@.len(),
                codebook@ == codebooks@[s as int]@,
                piece@ == slice_of(residual@, s as int, slice_dim as int),
                whole == tables_of(math, residual@, books(codebooks@), slice_dim as int),
                table@ == whole[s as int].take(c as int),
        {
            table.push(math.residual_distance(piece, codebook[c].as_slice()));
            assert(table@ =~= whole[s as int].take(c + 1));
        }
        assert(table@ =~= whole[s as int]);
        tables.push(table);
    }
    assert(crate::dataset::contents(tables@) =~= whole);
    tables
}

} // verus!
