//! What the codes of an [`IvfPqIndex`] stand for, and what a search of it
//! finds.

use vstd::prelude::*;

use crate::math::VectorMath;
use crate::pq::IvfPqIndex;
use crate::ranking::Ranked;
use crate::types::Neighbor;

verus! {

/// The codes of a vector name, for each slice, the codeword nearest to it.
pub proof fn codes_name_the_nearest_codewords<M: VectorMath>(
    math: &M,
    vector: Seq<u32>,
    codebooks: Seq<Seq<Seq<u32>>>,
    codebook_size: int,
    slice_dim: int,
    s: int,
)
    requires
        crate::codebooks::shaped(codebooks, codebooks.len() as int, codebook_size, slice_dim),
        0 < codebook_size <= 256,
        0 <= s < codebooks.len(),
    ensures
        ({
            let slice = crate::codebooks::slice_of(vector, s, slice_dim);
            let code = crate::codebooks::encoded(math, vector, codebooks, slice_dim)[s];
            let scores = crate::codebooks::codeword_scores(math, slice, codebooks[s]);
            &&& code < codebook_size
            &&& forall|c: int|
                0 <= c < codebook_size && c != code ==> crate::ranking::precedes(
                    scores[code as int].rank(),
                    (#[trigger] scores[c]).rank(),
                )
        }),
{
    let slice = crate::codebooks::slice_of(vector, s, slice_dim);
    assert(codebooks[s].len() == codebook_size);
    crate::codebooks::code_names_the_nearest(math, slice, codebooks[s]);
}

/// An index has as many codebooks as subquantizers, each of as many codewords of
/// the dimension of a slice as configured; every row stands in one list; the
/// codes take a byte for each slice of each row; and the codewords take four
/// bytes for each component of as many vectors as a codebook has codewords.
pub proof fn an_index_has_its_shape(index: &IvfPqIndex)
    requires
        index.wf(),
    ensures
        crate::codebooks::shaped(
            index.words(),
            index.settings().subquantizers as int,
            index.settings().codebook_size as int,
            index.data().width() as int / index.settings().subquantizers as int,
        ),
        crate::seqs::total(index.groups()) == index.data()@.len(),
        crate::seqs::grand_total(index.codes()) == index.data()@.len()
            * index.settings().subquantizers,
        crate::seqs::grand_total(index.words()) * 4 == index.settings().codebook_size
            * index.data().width() * 4,
{
    let slices = index.settings().subquantizers as int;
    let size = index.settings().codebook_size as int;
    let width = index.data().width() as int;
    let step = index.slice_dim() as int;
    crate::ivf_laws::sizes_add_up(index.groups(), index.data()@.len());
    lemma_same_total(index.codes(), index.groups());
    assert forall|c: int, i: int|
        0 <= c < index.codes().len() && 0 <= i < index.codes()[c].len() implies (
    #[trigger] index.codes()[c][i]).len() == slices by {
        assert(crate::pq::code_fits(index.codes()[c][i], slices, size));
    }
    crate::seqs::lemma_grand_total_of_uniform(index.codes(), slices as nat);
    assert forall|s: int, c: int|
        0 <= s < index.words().len() && 0 <= c < index.words()[s].len() implies (
    #[trigger] index.words()[s][c]).len() == step by {
        assert(crate::dataset::uniform(index.words()[s], step));
    }
    crate::seqs::lemma_grand_total_of_uniform(index.words(), step as nat);
    crate::seqs::lemma_total_of_uniform(index.words(), size as nat);
    vstd::arithmetic::div_mod::lemma_fundamental_div_mod(width, slices);
    assert((slices * size) * step == size * width) by (nonlinear_arith)
        requires
            width == slices * step,
    ;
}

/// Lists of one length each hold as many items together.
proof fn lemma_same_total<S, T>(left: Seq<Seq<S>>, right: Seq<Seq<T>>)
    requires
        left.len() == right.len(),
        forall|c: int| 0 <= c < left.len() ==> (#[trigger] left[c]).len() == right[c].len(),
    ensures
        crate::seqs::total(left) == crate::seqs::total(right),
    decreases left.len(),
{
    if left.len() > 0 {
        let a = left.drop_last();
        let b = right.drop_last();
        assert forall|c: int| 0 <= c < a.len() implies (#[trigger] a[c]).len() == b[c].len() by {
            assert(a[c] == left[c] && b[c] == right[c]);
        }
        lemma_same_total(a, b);
        assert(left[left.len() - 1].len() == right[left.len() - 1].len());
    }
}

/// The codes take at most a quarter of the bytes of the vectors.
pub proof fn codes_take_a_quarter_at_most(index: &IvfPqIndex)
    requires
        index.wf(),
        index.data().width() > 0,
    ensures
        4 * (index.data()@.len() * index.settings().subquantizers) <= index.data()@.len()
            * index.data().width() * 4,
{
    let rows = index.data()@.len() as int;
    let slices = index.settings().subquantizers as int;
    let width = index.data().width() as int;
    vstd::arithmetic::div_mod::lemma_fundamental_div_mod(width, slices);
    assert(slices <= width) by (nonlinear_arith)
        requires
            width == slices * (width / slices),
            width > 0,
            slices > 0,
    ;
    assert(4 * (rows * slices) <= rows * width * 4) by (nonlinear_arith)
        requires
            slices <= width,
            0 <= rows,
    ;
}

/// The rows on the shortlist are distinct rows of the dataset, and all of them
/// where all groups are probed and none is cut off.
proof fn lemma_shortlist<M: VectorMath>(
    math: &M,
    index: &IvfPqIndex,
    query: Seq<u32>,
    probes: nat,
    budget: nat,
)
    requires
        index.wf(),
        probes <= index.settings().partitions,
    ensures
        ({
            let shortlist = index.shortlist(math, query, probes, budget);
            &&& shortlist.no_duplicates()
            &&& forall|row: usize| #[trigger]
                shortlist.contains(row) ==> row < index.data()@.len()
            &&& probes == index.settings().partitions && budget >= index.data()@.len()
                ==> shortlist.len() == index.data()@.len() && forall|row: usize| #[trigger]
                shortlist.contains(row) <==> row < index.data()@.len()
        }),
{
    let rows = index.data()@.len();
    let order = index.probed_groups(math, query, probes);
    let scored = index.scored(math, query, order);
    let best = crate::ranking::smallest(scored, budget);
    let shortlist = index.shortlist(math, query, probes, budget);
    let listed = crate::ivf::listed(order, index.groups());
    let assignments = choose|assignments: Seq<usize>|
        #[trigger] crate::ivf::made_by(index.groups(), rows, assignments);
    crate::ivf_laws::lemma_rows_of_numbered(
        crate::codebooks::codeword_scores(math, query, index.centers()),
        probes,
        order,
    );
    crate::ivf_laws::lemma_listed(order, index.groups(), assignments);
    crate::pq::lemma_scored_rows(index, math, query, order);
    assert(crate::pq::rows_scored(scored) == listed);
    assert forall|i: int, j: int|
        0 <= i < scored.len() && 0 <= j < scored.len() && i != j implies scored[i]
        != scored[j] by {
        assert(listed[i] == scored[i].row && listed[j] == scored[j].row);
    }
    crate::ranking::lemma_smallest_of_distinct(scored, budget);
    assert forall|i: int| 0 <= i < best.len() implies exists|j: int|
        0 <= j < scored.len() && scored[j] == #[trigger] best[i] by {
        assert(best.contains(best[i]));
        assert(scored.contains(best[i]));
    }
    assert forall|i: int, j: int|
        0 <= i < shortlist.len() && 0 <= j < shortlist.len() && i != j implies shortlist[i]
        != shortlist[j] by {
        let a = choose|a: int| 0 <= a < scored.len() && scored[a] == best[i];
        let b = choose|b: int| 0 <= b < scored.len() && scored[b] == best[j];
        assert(best[i] != best[j]);
        assert(listed[a] == best[i].row && listed[b] == best[j].row);
    }
    assert forall|row: usize| #[trigger] shortlist.contains(row) implies row < rows by {
        let i = choose|i: int| 0 <= i < shortlist.len() && shortlist[i] == row;
        let a = choose|a: int| 0 <= a < scored.len() && scored[a] == best[i];
        assert(listed[a] == row);
        assert(listed.contains(row));
    }
    if probes == index.settings().partitions && budget >= rows {
        crate::ivf_laws::lemma_all_listed(order, index.groups(), rows);
        lemma_count(listed, rows);
        assert forall|row: usize| #[trigger] shortlist.contains(row) <==> row < rows by {
            if row < rows {
                assert(listed.contains(row));
                let a = choose|a: int| 0 <= a < listed.len() && listed[a] == row;
                assert(scored.contains(scored[a]));
                assert(best.contains(scored[a]));
                let i = choose|i: int| 0 <= i < best.len() && best[i] == scored[a];
                assert(shortlist[i] == row);
            }
        }
    }
}

/// A list that holds each of `n` rows once has `n` entries.
proof fn lemma_count(rows: Seq<usize>, n: nat)
    requires
        n <= usize::MAX,
        rows.no_duplicates(),
        forall|row: usize| #[trigger] rows.contains(row) <==> row < n,
    ensures
        rows.len() == n,
{
    let all = crate::shuffle::identity(n);
    crate::ivf_laws::lemma_identity(n);
    rows.unique_seq_to_set();
    all.unique_seq_to_set();
    assert(rows.to_set() =~= all.to_set()) by {
        assert forall|row: usize| rows.to_set().contains(row) <==> all.to_set().contains(row) by {
            assert(rows.contains(row) <==> all.contains(row));
        }
    }
}

/// The finite ones of distinct neighbours: distinct, and exactly those.
pub proof fn lemma_representable(items: Seq<Neighbor>)
    requires
        items.no_duplicates(),
    ensures
        crate::pq::representable(items).no_duplicates(),
        forall|x: Neighbor| #[trigger]
            crate::pq::representable(items).contains(x) <==> items.contains(x)
                && crate::bits::finite_32(x.distance),
    decreases items.len(),
{
    if items.len() > 0 {
        let rest = items.drop_last();
        let last = items.last();
        let before = crate::pq::representable(rest);
        let after = crate::pq::representable(items);
        lemma_representable(rest);
        assert(!rest.contains(last)) by {
            if rest.contains(last) {
                let i = choose|i: int| 0 <= i < rest.len() && rest[i] == last;
                assert(items[i] != items[items.len() - 1]);
            }
        }
        assert(!before.contains(last));
        assert forall|x: Neighbor| #[trigger] items.contains(x) <==> rest.contains(x) || x
            == last by {
            if rest.contains(x) {
                let i = choose|i: int| 0 <= i < rest.len() && rest[i] == x;
                assert(items[i] == x);
            }
            if items.contains(x) {
                let i = choose|i: int| 0 <= i < items.len() && items[i] == x;
                if i < rest.len() {
                    assert(rest[i] == x);
                }
            }
            assert(items[items.len() - 1] == last);
        }
        assert forall|x: Neighbor| #[trigger] after.contains(x) <==> items.contains(x)
            && crate::bits::finite_32(x.distance) by {
            assert(before.contains(x) <==> rest.contains(x) && crate::bits::finite_32(
                x.distance,
            ));
            if crate::bits::finite_32(last.distance) {
                assert(after == before.push(last));
                if before.contains(x) {
                    let i = choose|i: int| 0 <= i < before.len() && before[i] == x;
                    assert(after[i] == x);
                }
                assert(after[before.len() as int] == last);
                if after.contains(x) {
                    let i = choose|i: int| 0 <= i < after.len() && after[i] == x;
                    if i < before.len() {
                        assert(before[i] == x);
                    }
                }
            }
        }
        assert forall|i: int, j: int|
            0 <= i < after.len() && 0 <= j < after.len() && i != j implies after[i]
            != after[j] by {
            if i < before.len() && j < before.len() {
                assert(before[i] != before[j]);
            } else if i < before.len() {
                assert(before.contains(before[i]));
            } else {
                assert(before.contains(before[j]));
            }
        }
    }
}

/// A search finds rows of the dataset with their exact, finite distances, each
/// once, nearest first, and at most `k`.
pub proof fn reranking_finds_true_neighbors<M: VectorMath>(
    math: &M,
    index: &IvfPqIndex,
    query: Seq<u32>,
    k: nat,
    probes: nat,
    rerank: nat,
)
    requires
        index.wf(),
        probes <= index.settings().partitions,
    ensures
        ({
            let candidates = index.candidates(math, query, k, probes, rerank);
            let found = crate::ranking::smallest(
                crate::pq::representable(candidates),
                crate::seqs::min(k, index.data()@.len()),
            );
            &&& crate::ranking::ascends(found)
            &&& found.no_duplicates()
            &&& found.len() <= k
            &&& forall|x: Neighbor| #[trigger]
                found.contains(x) ==> x.row < index.data()@.len() && x == index.exact(math, query)(
                    x.row,
                ) && crate::bits::finite_32(x.distance) && candidates.contains(x)
        }),
{
    let rows = index.data()@.len();
    let budget = crate::seqs::min(crate::seqs::max(rerank, k), rows);
    let shortlist = index.shortlist(math, query, probes, budget);
    let exact = index.exact(math, query);
    let candidates = index.candidates(math, query, k, probes, rerank);
    let measured = crate::pq::representable(candidates);
    lemma_shortlist(math, index, query, probes, budget);
    crate::ivf_laws::lemma_as_neighbors(exact, shortlist);
    lemma_representable(candidates);
    crate::ranking::lemma_smallest_of_distinct(measured, crate::seqs::min(k, rows));
    let found = crate::ranking::smallest(measured, crate::seqs::min(k, rows));
    assert forall|x: Neighbor| #[trigger] found.contains(x) implies x.row < rows && x == exact(
        x.row,
    ) && crate::bits::finite_32(x.distance) && candidates.contains(x) by {
        assert(measured.contains(x));
        assert(shortlist.contains(x.row));
    }
}

/// A search that probes all groups and measures all rows is exhaustive: it
/// finds the nearest of all rows whose distance is finite, whatever the codes.
pub proof fn measuring_all_rows_is_exhaustive<M: VectorMath>(
    math: &M,
    index: &IvfPqIndex,
    query: Seq<u32>,
    k: nat,
    rerank: nat,
)
    requires
        index.wf(),
        crate::seqs::max(rerank, k) >= index.data()@.len(),
    ensures
        ({
            let rows = index.data()@.len();
            let candidates = index.candidates(
                math,
                query,
                k,
                index.settings().partitions as nat,
                rerank,
            );
            let everything = crate::ivf::as_neighbors(
                index.exact(math, query),
                crate::shuffle::identity(rows),
            );
            &&& candidates.len() == rows
            &&& crate::pq::representable(candidates).len() == crate::pq::representable(
                everything,
            ).len()
            &&& crate::ranking::smallest(
                crate::pq::representable(candidates),
                crate::seqs::min(k, rows),
            ) == crate::ranking::smallest(
                crate::pq::representable(everything),
                crate::seqs::min(k, rows),
            )
        }),
{
    let rows = index.data()@.len();
    let probes = index.settings().partitions as nat;
    let exact = index.exact(math, query);
    let shortlist = index.shortlist(math, query, probes, rows);
    let candidates = index.candidates(math, query, k, probes, rerank);
    let all = crate::shuffle::identity(rows);
    let everything = crate::ivf::as_neighbors(exact, all);
    lemma_shortlist(math, index, query, probes, rows);
    crate::ivf_laws::lemma_identity(rows);
    crate::ivf_laws::lemma_as_neighbors(exact, shortlist);
    crate::ivf_laws::lemma_as_neighbors(exact, all);
    lemma_representable(candidates);
    lemma_representable(everything);
    let left = crate::pq::representable(candidates);
    let right = crate::pq::representable(everything);
    assert forall|x: Neighbor| #[trigger] left.contains(x) <==> right.contains(x) by {
        assert(shortlist.contains(x.row) <==> all.contains(x.row));
        assert(candidates.contains(x) <==> everything.contains(x));
    }
    crate::ranking::lemma_same_items_same_order(left, right);
    crate::ranking::ascending_sorts(left);
    crate::ranking::ascending_sorts(right);
}

/// A search is not refused for its distances where those of all rows are
/// finite: every candidate is measured.
pub proof fn finite_distances_are_all_measured<M: VectorMath>(
    math: &M,
    index: &IvfPqIndex,
    query: Seq<u32>,
    k: nat,
    probes: nat,
    rerank: nat,
)
    requires
        index.wf(),
        probes <= index.settings().partitions,
        forall|row: usize|
            row < index.data()@.len() ==> crate::bits::finite_32(
                (#[trigger] index.exact(math, query)(row)).distance,
            ),
    ensures
        crate::pq::representable(index.candidates(math, query, k, probes, rerank))
            == index.candidates(math, query, k, probes, rerank),
{
    let rows = index.data()@.len();
    let budget = crate::seqs::min(crate::seqs::max(rerank, k), rows);
    let shortlist = index.shortlist(math, query, probes, budget);
    let candidates = index.candidates(math, query, k, probes, rerank);
    lemma_shortlist(math, index, query, probes, budget);
    assert forall|i: int| 0 <= i < candidates.len() implies crate::bits::finite_32(
        (#[trigger] candidates[i]).distance,
    ) by {
        assert(shortlist.contains(shortlist[i]));
        assert(candidates[i] == index.exact(math, query)(shortlist[i]));
    }
    lemma_all_representable(candidates);
}

pub proof fn lemma_all_representable(items: Seq<Neighbor>)
    requires
        forall|i: int|
            0 <= i < items.len() ==> crate::bits::finite_32((#[trigger] items[i]).distance),
    ensures
        crate::pq::representable(items) == items,
    decreases items.len(),
{
    if items.len() > 0 {
        let rest = items.drop_last();
        assert forall|i: int| 0 <= i < rest.len() implies crate::bits::finite_32(
            (#[trigger] rest[i]).distance,
        ) by {
            assert(rest[i] == items[i]);
        }
        lemma_all_representable(rest);
        assert(crate::bits::finite_32(items[items.len() - 1].distance));
        assert(crate::pq::representable(items) =~= items);
    }
}

} // verus!
