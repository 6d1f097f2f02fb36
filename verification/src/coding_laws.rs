//! What building and searching an index of codes does, said of distances,
//! differences, sums and rows alone.

use vstd::prelude::*;

use crate::codebooks::{
    encode_residual, finite_residual, lookup_tables, query_residual, train_codebook,
};
use crate::dataset::Dataset;
use crate::index::VectorIndex;
use crate::ivf::train_centroids;
use crate::math::VectorMath;
use crate::pq::{IvfPqConfig, IvfPqIndex};
use crate::ranking::{Ranked, ScoredRow};
use crate::types::{Metric, Neighbor, VectorError};

verus! {

/// What `vector` differs by from `center`, component by component.
pub open spec fn less<M: VectorMath>(math: &M, vector: Seq<u32>, center: Seq<u32>) -> Seq<u32> {
    Seq::new(vector.len(), |d: int| math.difference_of(vector[d], center[d]))
}

/// What `query` differs by from `center` in double precision, component by
/// component.
pub open spec fn less_wide<M: VectorMath>(
    math: &M,
    query: Seq<u32>,
    center: Seq<u32>,
) -> Seq<u64> {
    Seq::new(query.len(), |d: int| math.wide_difference_of(query[d], center[d]))
}

/// Part `s` of a vector cut into parts of `step` components.
pub open spec fn part<T>(vector: Seq<T>, s: int, step: nat) -> Seq<T> {
    Seq::new(step, |d: int| vector[s * step + d])
}

/// How many components a code stands for.
pub open spec fn step_of(index: &IvfPqIndex) -> nat {
    index.data().width() / (index.settings().subquantizers as nat)
}

/// Whether `residuals` are what each vector differs by from the centroid that it
/// picks.
pub open spec fn are_residuals<M: VectorMath>(
    math: &M,
    vectors: Seq<Seq<u32>>,
    centroids: Seq<Seq<u32>>,
    residuals: Seq<Seq<u32>>,
) -> bool {
    let key = crate::cluster_laws::centroid_key(math, Metric::Euclidean, vectors, centroids);
    &&& residuals.len() == vectors.len()
    &&& forall|row: usize, c: usize|
        row < vectors.len() && #[trigger] crate::cluster_laws::picks(
            key,
            centroids.len(),
            row,
            c,
        ) ==> residuals[row as int] == less(math, vectors[row as int], centroids[c as int])
}

/// Whether code `s` of entry `i` of group `c` is right: it names, of the
/// codewords of codebook `s`, the one nearest to part `s` of what the vector of
/// the entry differs by from the centroid of the group.
pub open spec fn coded_rightly<M: VectorMath>(
    math: &M,
    index: &IvfPqIndex,
    c: int,
    i: int,
    s: int,
) -> bool {
    let row = index.groups()[c][i];
    let piece = part(
        less(math, index.data()@[row as int], index.centers()[c]),
        s,
        step_of(index),
    );
    &&& index.codes()[c][i].len() == index.settings().subquantizers
    &&& crate::cluster_laws::first_of(
        |w: usize|
            crate::bits::order_64(math.squared_distance_of(piece, index.words()[s][w as int])),
        index.settings().codebook_size as nat,
        index.codes()[c][i][s] as usize,
    )
}

proof fn lemma_step(index: &IvfPqIndex, s: int)
    requires
        index.wf(),
        0 <= s < index.settings().subquantizers,
    ensures
        step_of(index) == index.slice_dim(),
        0 <= s * step_of(index),
        s * step_of(index) + step_of(index) <= index.data().width(),
        index.settings().subquantizers * step_of(index) == index.data().width(),
{
    let slices = index.settings().subquantizers as int;
    let width = index.data().width() as int;
    vstd::arithmetic::div_mod::lemma_fundamental_div_mod(width, slices);
    crate::codebooks::lemma_slice_fits(s, slices, step_of(index) as int);
}

/// The residuals of the assignment to nearest centroids are what they should be,
/// and nothing else is.
pub proof fn lemma_residuals<M: VectorMath>(
    math: &M,
    vectors: Seq<Seq<u32>>,
    centroids: Seq<Seq<u32>>,
    width: int,
    residuals: Seq<Seq<u32>>,
)
    requires
        0 < centroids.len() <= usize::MAX,
        vectors.len() <= usize::MAX,
        crate::dataset::uniform(vectors, width),
        crate::dataset::uniform(centroids, width),
    ensures
        are_residuals(math, vectors, centroids, residuals) <==> residuals
            == crate::pq::residuals_of(
            math,
            vectors,
            centroids,
            crate::clusters::assigned(math, Metric::Euclidean, vectors, centroids),
        ),
{
    let rows = crate::clusters::assigned(math, Metric::Euclidean, vectors, centroids);
    let whole = crate::pq::residuals_of(math, vectors, centroids, rows);
    let key = crate::cluster_laws::centroid_key(math, Metric::Euclidean, vectors, centroids);
    assert forall|row: usize, c: usize|
        row < vectors.len() && #[trigger] crate::cluster_laws::picks(
            key,
            centroids.len(),
            row,
            c,
        ) implies c == rows[row as int] && whole[row as int] == less(
        math,
        vectors[row as int],
        centroids[c as int],
    ) by {
        crate::cluster_laws::lemma_picks(math, Metric::Euclidean, vectors, centroids, row);
        assert(vectors[row as int].len() == width);
        assert(centroids[c as int].len() == width);
        assert(whole[row as int] =~= less(math, vectors[row as int], centroids[c as int]));
    }
    if are_residuals(math, vectors, centroids, residuals) {
        assert forall|row: int| 0 <= row < vectors.len() implies residuals[row] == whole[row] by {
            crate::cluster_laws::lemma_picks(
                math,
                Metric::Euclidean,
                vectors,
                centroids,
                row as usize,
            );
            assert(crate::cluster_laws::picks(key, centroids.len(), row as usize, rows[row]));
        }
        assert(residuals =~= whole);
    }
}

/// An index of codes is built over the centroids that training gives; each of
/// its groups is the rows that pick its centroid; and the codes of a row name,
/// part by part, the codewords nearest to what its vector differs by from the
/// centroid of its group.
pub proof fn building_codes_each_row_by_its_own_centroid<M: VectorMath>(
    math: &M,
    dataset: Dataset,
    metric: Metric,
    config: IvfPqConfig,
    draws: &[usize],
    codebook_draws: &[Vec<usize>],
    centroids: Vec<Vec<u32>>,
    index: IvfPqIndex,
)
    requires
        call_ensures(
            IvfPqIndex::try_new::<M>,
            (math, dataset, metric, config, draws, codebook_draws),
            Ok(index),
        ),
        call_ensures(
            train_centroids::<M>,
            (math, &dataset, Metric::Euclidean, config.partitions, config.iterations, draws),
            centroids,
        ),
    ensures
        metric == Metric::Euclidean,
        index.data() == dataset,
        index.settings() == config,
        index.centers() == crate::dataset::contents(centroids@),
        index.groups().len() == config.partitions,
        forall|c: usize|
            c < config.partitions ==> crate::cluster_laws::picked_by(
                crate::cluster_laws::centroid_key(
                    math,
                    Metric::Euclidean,
                    dataset@,
                    index.centers(),
                ),
                dataset@.len(),
                config.partitions as nat,
                c,
                #[trigger] index.groups()[c as int],
            ),
        index.codes().len() == config.partitions,
        forall|c: int|
            0 <= c < config.partitions ==> (#[trigger] index.codes()[c]).len()
                == index.groups()[c].len(),
        forall|c: int, i: int, s: int|
            0 <= c < config.partitions && 0 <= i < index.groups()[c].len() && 0 <= s
                < config.subquantizers ==> #[trigger] coded_rightly(math, &index, c, i, s),
{
    assert forall|c: usize| c < config.partitions implies crate::cluster_laws::picked_by(
        crate::cluster_laws::centroid_key(math, Metric::Euclidean, dataset@, index.centers()),
        dataset@.len(),
        config.partitions as nat,
        c,
        #[trigger] index.groups()[c as int],
    ) by {
        crate::cluster_laws::lemma_picked_by(
            math,
            Metric::Euclidean,
            dataset@,
            index.centers(),
            c,
        );
    }
    assert forall|c: int, i: int, s: int|
        0 <= c < config.partitions && 0 <= i < index.groups()[c].len() && 0 <= s
            < config.subquantizers implies #[trigger] coded_rightly(math, &index, c, i, s) by {
        let rows = crate::clusters::assigned(
            math,
            Metric::Euclidean,
            dataset@,
            index.centers(),
        );
        let residuals = crate::pq::residuals_of(math, dataset@, index.centers(), rows);
        let row = index.groups()[c][i];
        crate::clusters::members_are_the_rows_assigned(rows, c);
        assert(index.groups()[c].contains(row));
        assert(row < dataset@.len() && rows[row as int] == c);
        lemma_step(&index, s);
        let step = step_of(&index);
        let own = less(math, dataset@[row as int], index.centers()[c]);
        assert(dataset@[row as int].len() == dataset.width());
        assert(index.centers()[c].len() == dataset.width());
        assert(residuals[row as int] =~= own);
        let piece = part(own, s, step);
        assert(crate::codebooks::slice_of(own, s, step as int) =~= piece);
        let book = index.words()[s];
        assert(book.len() == config.codebook_size);
        let pieces = seq![piece];
        crate::cluster_laws::lemma_code_picks(math, pieces, book, 0);
        crate::codebooks::code_names_the_nearest(math, piece, book);
        let code = crate::codebooks::code_of(math, piece, book);
        assert(index.codes()[c][i][s] == code);
        assert(crate::cluster_laws::picks(
            crate::cluster_laws::codeword_key(math, pieces, book),
            book.len(),
            0,
            code,
        ));
        let at = |x: usize| crate::cluster_laws::codeword_key(math, pieces, book)(0, x);
        let key = |w: usize|
            crate::bits::order_64(math.squared_distance_of(piece, index.words()[s][w as int]));
        assert forall|d: usize| d < book.len() && d != code implies #[trigger]
            crate::cluster_laws::sooner(key, code, d) by {
            assert(crate::cluster_laws::sooner(at, code, d));
        }
        assert(crate::cluster_laws::first_of(key, book.len(), code));
    }
}

/// Codebook `s` of an index of codes is what training gives for part `s` of what
/// the rows differ by from the centroids that they pick, and these differences
/// are finite.
pub proof fn building_trains_a_codebook_for_each_part<M: VectorMath>(
    math: &M,
    dataset: Dataset,
    metric: Metric,
    config: IvfPqConfig,
    draws: &[usize],
    codebook_draws: &[Vec<usize>],
    index: IvfPqIndex,
    residuals: &[Vec<u32>],
    s: usize,
    offset: usize,
    step: usize,
    own_draws: &[usize],
    codebook: Vec<Vec<u32>>,
)
    requires
        call_ensures(
            IvfPqIndex::try_new::<M>,
            (math, dataset, metric, config, draws, codebook_draws),
            Ok(index),
        ),
        are_residuals(
            math,
            dataset@,
            index.centers(),
            crate::dataset::contents(residuals@),
        ),
        s < config.subquantizers,
        step == dataset.width() / (config.subquantizers as nat),
        offset == s * step,
        s < codebook_draws@.len(),
        own_draws@ == codebook_draws@[s as int]@,
        call_ensures(
            train_codebook::<M>,
            (
                math,
                residuals,
                offset,
                step,
                config.codebook_size,
                config.iterations,
                own_draws,
            ),
            codebook,
        ),
    ensures
        index.words().len() == config.subquantizers,
        index.words()[s as int] == crate::dataset::contents(codebook@),
        forall|row: int, d: int|
            0 <= row < residuals@.len() && 0 <= d < residuals@[row]@.len()
                ==> crate::bits::finite_32(#[trigger] residuals@[row]@[d]),
{
    let width = dataset.width() as int;
    let whole = crate::dataset::contents(residuals@);
    lemma_residuals(math, dataset@, index.centers(), width, whole);
    lemma_step(&index, s as int);
    assert(crate::dataset::contents(codebook_draws@)[s as int] == own_draws@);
    assert forall|row: int, d: int|
        0 <= row < residuals@.len() && 0 <= d < residuals@[row]@.len()
            implies crate::bits::finite_32(#[trigger] residuals@[row]@[d]) by {
        assert(crate::dataset::all_finite(whole[row]));
        assert(whole[row] == residuals@[row]@);
    }
}

/// The score of entry `i` of group `c`: the sum of one term for each
/// subquantizer, the squared distance of its part of what the query differs by
/// from the centroid of the group from the codeword that the code of the entry
/// names in its codebook.
pub open spec fn score_at<M: VectorMath>(
    math: &M,
    index: &IvfPqIndex,
    query: Seq<u32>,
    c: int,
    i: int,
) -> u64 {
    math.sum_of(
        Seq::new(
            index.settings().subquantizers as nat,
            |s: int|
                math.residual_distance_of(
                    part(less_wide(math, query, index.centers()[c]), s, step_of(index)),
                    index.words()[s][index.codes()[c][i][s] as int],
                ),
        ),
    )
}

/// Whether `row` is entry `i` of group `c`.
pub open spec fn placed(index: &IvfPqIndex, c: int, i: int, row: usize) -> bool {
    &&& 0 <= c < index.groups().len()
    &&& 0 <= i < index.groups()[c].len()
    &&& index.groups()[c][i] == row
}

/// Whether row `a` has a smaller score than row `b`, or the same and stands
/// before it.
pub open spec fn scores_less<M: VectorMath>(
    math: &M,
    index: &IvfPqIndex,
    query: Seq<u32>,
    a: usize,
    b: usize,
) -> bool {
    forall|c: int, i: int, d: int, j: int| #[trigger]
        placed(index, c, i, a) && #[trigger] placed(index, d, j, b) ==> {
            let p = crate::bits::order_64(score_at(math, index, query, c, i));
            let q = crate::bits::order_64(score_at(math, index, query, d, j));
            p < q || (p == q && a < b)
        }
}

/// Whether `shortlist` are the rows of the groups that `order` names with the
/// smallest scores, in the order of these: all, or `budget` of them.
pub open spec fn shortlisted<M: VectorMath>(
    math: &M,
    index: &IvfPqIndex,
    query: Seq<u32>,
    order: Seq<usize>,
    budget: nat,
    shortlist: Seq<usize>,
) -> bool {
    &&& shortlist.len() <= budget
    &&& shortlist.no_duplicates()
    &&& forall|i: int|
        0 <= i < shortlist.len() ==> crate::ivf_laws::in_named_group(
            index.groups(),
            order,
            #[trigger] shortlist[i],
        )
    &&& forall|i: int, j: int|
        0 <= i < j < shortlist.len() ==> scores_less(
            math,
            index,
            query,
            #[trigger] shortlist[i],
            #[trigger] shortlist[j],
        )
    &&& forall|row: usize| #[trigger]
        crate::ivf_laws::in_named_group(index.groups(), order, row) && !shortlist.contains(row)
            ==> shortlist.len() == budget && forall|i: int|
            0 <= i < shortlist.len() ==> scores_less(
                math,
                index,
                query,
                #[trigger] shortlist[i],
                row,
            )
}

/// How many rows a search measures exactly: `rerank`, or `k` where that is more,
/// or all.
pub open spec fn budget_of(rerank: nat, k: nat, rows: nat) -> nat {
    if rerank < rows && k < rows {
        if rerank < k {
            k
        } else {
            rerank
        }
    } else {
        rows
    }
}

/// Whether a search looked at the right rows: the groups named by `order` are
/// the `probes` whose centroids are nearest to the query, and `shortlist` are
/// the rows of them that it measures.
pub open spec fn looked_at<M: VectorMath>(
    math: &M,
    index: &IvfPqIndex,
    query: Seq<u32>,
    k: nat,
    probes: nat,
    rerank: nat,
    order: Seq<usize>,
    shortlist: Seq<usize>,
) -> bool {
    &&& crate::ivf_laws::soonest(
        |c: usize|
            crate::bits::order_64(math.squared_distance_of(query, index.centers()[c as int])),
        index.centers().len(),
        probes,
        order,
    )
    &&& shortlisted(
        math,
        index,
        query,
        order,
        budget_of(rerank, k, index.data()@.len()),
        shortlist,
    )
}

/// The distance of each row from the query.
pub open spec fn measured<M: VectorMath>(
    math: &M,
    index: &IvfPqIndex,
    query: Seq<u32>,
) -> spec_fn(usize) -> u32 {
    |row: usize| math.root_of(math.squared_distance_of(index.data()@[row as int], query))
}

/// Whether `found` are the nearest of the rows on the shortlist whose distances
/// are finite, at most `limit`.
pub open spec fn nearest_on_shortlist(
    dist: spec_fn(usize) -> u32,
    shortlist: Seq<usize>,
    limit: nat,
    found: Seq<Neighbor>,
) -> bool {
    &&& crate::graph_laws::nearest_ranked(dist, found)
    &&& found.len() <= limit
    &&& forall|i: int|
        0 <= i < found.len() ==> shortlist.contains((#[trigger] found[i]).row)
            && crate::bits::finite_32(found[i].distance)
    &&& forall|row: usize| #[trigger]
        shortlist.contains(row) && crate::bits::finite_32(dist(row))
            ==> crate::graph_laws::found_or_beaten(dist, found, limit, row)
}

/// Whether `rows` are distinct rows on the shortlist with finite distances.
pub open spec fn finite_on_shortlist(
    dist: spec_fn(usize) -> u32,
    shortlist: Seq<usize>,
    rows: Seq<usize>,
) -> bool {
    &&& rows.no_duplicates()
    &&& forall|i: int|
        0 <= i < rows.len() ==> shortlist.contains(#[trigger] rows[i]) && crate::bits::finite_32(
            dist(rows[i]),
        )
}

/// Whether a row on the shortlist has a distance that is not finite.
pub open spec fn some_not_finite(dist: spec_fn(usize) -> u32, shortlist: Seq<usize>) -> bool {
    exists|i: int|
        0 <= i < shortlist.len() && !crate::bits::finite_32(dist(#[trigger] shortlist[i]))
}

/// How many rows a search is asked for: `k`, or all.
pub open spec fn asked_for(k: nat, rows: nat) -> nat {
    if k < rows {
        k
    } else {
        rows
    }
}

/// A row is one entry of one group.
proof fn lemma_placed_once(index: &IvfPqIndex, c: int, i: int, d: int, j: int, row: usize)
    requires
        index.wf(),
        placed(index, c, i, row),
        placed(index, d, j, row),
    ensures
        c == d,
        i == j,
{
    let groups = index.groups();
    let assignments = choose|assignments: Seq<usize>|
        #[trigger] crate::ivf::made_by(groups, index.data()@.len(), assignments);
    crate::clusters::members_are_the_rows_assigned(assignments, c);
    crate::clusters::members_are_the_rows_assigned(assignments, d);
    let left = crate::clusters::members(assignments, c);
    let right = crate::clusters::members(assignments, d);
    assert(groups[c] == left && groups[d] == right);
    assert(left[i] == row && right[j] == row);
    assert(left.contains(row) && right.contains(row));
    if i < j {
        assert(left[i] < left[j]);
    }
    if j < i {
        assert(left[j] < left[i]);
    }
}

/// An entry of a group is scored as it should be.
proof fn lemma_score_at<M: VectorMath>(
    math: &M,
    index: &IvfPqIndex,
    query: Seq<u32>,
    c: int,
    i: int,
)
    requires
        index.wf(),
        query.len() == index.data().width(),
        0 <= c < index.groups().len(),
        0 <= i < index.groups()[c].len(),
    ensures
        index.group_scores(math, query, c)[i] == (ScoredRow {
            row: index.groups()[c][i],
            score: score_at(math, index, query, c, i),
        }),
{
    let slices = index.settings().subquantizers as nat;
    let step = step_of(index);
    let codes = index.codes()[c][i];
    let own = less_wide(math, query, index.centers()[c]);
    let tables = index.tables(math, query, c);
    assert(index.centers()[c].len() == index.data().width());
    assert(crate::codebooks::wide_residual(math, query, index.centers()[c]) =~= own);
    assert(index.codes()[c].len() == index.groups()[c].len());
    assert(crate::pq::code_fits(codes, slices as int, index.settings().codebook_size as int));
    let terms = Seq::new(
        slices,
        |s: int|
            math.residual_distance_of(
                part(own, s, step),
                index.words()[s][index.codes()[c][i][s] as int],
            ),
    );
    assert forall|s: int| 0 <= s < slices implies crate::pq::named(tables, codes)[s]
        == terms[s] by {
        lemma_step(index, s);
        assert(crate::codebooks::slice_of(own, s, step as int) =~= part(own, s, step));
        assert(codes[s] < index.settings().codebook_size);
        assert(index.words()[s].len() == index.settings().codebook_size);
    }
    assert(crate::pq::named(tables, codes) =~= terms);
}

/// Every scored row is an entry of a group with its score.
proof fn lemma_scored<M: VectorMath>(
    math: &M,
    index: &IvfPqIndex,
    query: Seq<u32>,
    order: Seq<usize>,
)
    requires
        index.wf(),
        query.len() == index.data().width(),
        forall|i: int| 0 <= i < order.len() ==> (#[trigger] order[i]) < index.groups().len(),
    ensures
        forall|p: int|
            0 <= p < index.scored(math, query, order).len() ==> entry_scored(
                math,
                index,
                query,
                #[trigger] index.scored(math, query, order)[p],
            ),
    decreases order.len(),
{
    if order.len() > 0 {
        let rest = order.drop_last();
        let last = order[order.len() - 1] as int;
        assert forall|i: int| 0 <= i < rest.len() implies (#[trigger] rest[i])
            < index.groups().len() by {
            assert(rest[i] == order[i]);
        }
        lemma_scored(math, index, query, rest);
        let before = index.scored(math, query, rest);
        let group = index.group_scores(math, query, last);
        let all = index.scored(math, query, order);
        assert(all == before + group);
        assert forall|p: int| 0 <= p < all.len() implies entry_scored(
            math,
            index,
            query,
            #[trigger] all[p],
        ) by {
            if p < before.len() {
                assert(all[p] == before[p]);
            } else {
                let i = p - before.len();
                assert(all[p] == group[i]);
                lemma_score_at(math, index, query, last, i);
                assert(placed(index, last, i, all[p].row));
            }
        }
    }
}

/// Whether a scored row is an entry of a group with its score.
spec fn entry_scored<M: VectorMath>(
    math: &M,
    index: &IvfPqIndex,
    query: Seq<u32>,
    item: ScoredRow,
) -> bool {
    exists|c: int, i: int| #[trigger]
        placed(index, c, i, item.row) && item.score == score_at(math, index, query, c, i)
}

/// An item that precedes another has a row that scores less.
proof fn lemma_scores_less<M: VectorMath>(
    math: &M,
    index: &IvfPqIndex,
    query: Seq<u32>,
    a: ScoredRow,
    b: ScoredRow,
)
    requires
        index.wf(),
        entry_scored(math, index, query, a),
        entry_scored(math, index, query, b),
        crate::ranking::precedes(a.rank(), b.rank()),
    ensures
        scores_less(math, index, query, a.row, b.row),
{
    let (c, i) = choose|c: int, i: int| #[trigger]
        placed(index, c, i, a.row) && a.score == score_at(math, index, query, c, i);
    let (d, j) = choose|d: int, j: int| #[trigger]
        placed(index, d, j, b.row) && b.score == score_at(math, index, query, d, j);
    assert forall|e: int, p: int, f: int, q: int| #[trigger]
        placed(index, e, p, a.row) && #[trigger] placed(index, f, q, b.row) implies ({
        let x = crate::bits::order_64(score_at(math, index, query, e, p));
        let y = crate::bits::order_64(score_at(math, index, query, f, q));
        x < y || (x == y && a.row < b.row)
    }) by {
        lemma_placed_once(index, c, i, e, p, a.row);
        lemma_placed_once(index, d, j, f, q, b.row);
    }
}

/// The groups and rows that a search takes are those that it should look at.
proof fn lemma_looked_at<M: VectorMath>(
    math: &M,
    index: &IvfPqIndex,
    query: Seq<u32>,
    k: nat,
    probes: nat,
    rerank: nat,
)
    requires
        index.wf(),
        query.len() == index.data().width(),
        probes <= index.settings().partitions,
    ensures
        looked_at(
            math,
            index,
            query,
            k,
            probes,
            rerank,
            index.probed_groups(math, query, probes),
            index.shortlist(
                math,
                query,
                probes,
                crate::seqs::min(crate::seqs::max(rerank, k), index.data()@.len()),
            ),
        ),
{
    let rows = index.data()@.len();
    let groups = index.groups();
    let budget = crate::seqs::min(crate::seqs::max(rerank, k), rows);
    assert(budget == budget_of(rerank, k, rows));
    let order = index.probed_groups(math, query, probes);
    let centers = crate::codebooks::codeword_scores(math, query, index.centers());
    let key = |c: usize|
        crate::bits::order_64(math.squared_distance_of(query, index.centers()[c as int]));
    crate::ivf_laws::lemma_soonest(centers, probes, key, order);
    crate::ivf_laws::lemma_rows_of_numbered(centers, probes, order);
    let assignments = choose|assignments: Seq<usize>|
        #[trigger] crate::ivf::made_by(groups, rows, assignments);
    crate::ivf_laws::lemma_in_named_group(order, groups, assignments);
    let scored = index.scored(math, query, order);
    let listed = crate::ivf::listed(order, groups);
    lemma_scored(math, index, query, order);
    crate::pq::lemma_scored_rows(index, math, query, order);
    assert forall|p: int| 0 <= p < scored.len() implies (#[trigger] scored[p]).row
        == listed[p] by {
        assert(crate::pq::rows_scored(scored)[p] == listed[p]);
    }
    assert(scored.len() == listed.len());
    assert(scored.no_duplicates());
    let best = crate::ranking::smallest(scored, budget);
    let shortlist = index.shortlist(math, query, probes, budget);
    crate::ranking::lemma_smallest_of_distinct(scored, budget);
    assert forall|p: int| 0 <= p < best.len() implies entry_scored(
        math,
        index,
        query,
        #[trigger] best[p],
    ) && listed.contains(shortlist[p]) by {
        assert(best.contains(best[p]));
        let q = choose|q: int| 0 <= q < scored.len() && scored[q] == best[p];
        assert(entry_scored(math, index, query, scored[q]));
        assert(listed[q] == shortlist[p]);
    }
    assert forall|p: int, q: int| 0 <= p < best.len() && 0 <= q < best.len() && p != q implies (
    #[trigger] shortlist[p]) != (#[trigger] shortlist[q]) by {
        assert(best[p] != best[q]);
        assert(scored.contains(best[p]) && scored.contains(best[q])) by {
            assert(best.contains(best[p]) && best.contains(best[q]));
        }
        let x = choose|x: int| 0 <= x < scored.len() && scored[x] == best[p];
        let y = choose|y: int| 0 <= y < scored.len() && scored[y] == best[q];
        assert(listed[x] == shortlist[p] && listed[y] == shortlist[q]);
    }
    assert forall|p: int, q: int| 0 <= p < q < shortlist.len() implies scores_less(
        math,
        index,
        query,
        #[trigger] shortlist[p],
        #[trigger] shortlist[q],
    ) by {
        assert(!crate::ranking::precedes(best[q].rank(), best[p].rank()));
        assert(shortlist[p] != shortlist[q]);
        assert(entry_scored(math, index, query, best[p]));
        assert(entry_scored(math, index, query, best[q]));
        lemma_scores_less(math, index, query, best[p], best[q]);
    }
    assert forall|row: usize| #[trigger]
        crate::ivf_laws::in_named_group(groups, order, row) && !shortlist.contains(
            row,
        ) implies shortlist.len() == budget && forall|i: int|
        0 <= i < shortlist.len() ==> scores_less(
            math,
            index,
            query,
            #[trigger] shortlist[i],
            row,
        ) by {
        assert(listed.contains(row));
        let p = choose|p: int| 0 <= p < listed.len() && listed[p] == row;
        let item = scored[p];
        assert(item.row == row);
        if best.contains(item) {
            let q = choose|q: int| 0 <= q < best.len() && best[q] == item;
            assert(shortlist[q] == row);
        }
        crate::ranking::lemma_left_out(scored, budget, item);
        assert forall|i: int| 0 <= i < shortlist.len() implies scores_less(
            math,
            index,
            query,
            #[trigger] shortlist[i],
            row,
        ) by {
            assert(crate::ranking::precedes(best[i].rank(), item.rank()));
            assert(entry_scored(math, index, query, best[i]));
            assert(entry_scored(math, index, query, scored[p]));
            lemma_scores_less(math, index, query, best[i], item);
        }
    }
}

/// What is found of the rows on a shortlist, and how many of them there are.
proof fn lemma_reranked<M: VectorMath>(
    math: &M,
    index: &IvfPqIndex,
    query: Seq<u32>,
    shortlist: Seq<usize>,
    limit: nat,
)
    requires
        shortlist.no_duplicates(),
    ensures
        ({
            let dist = measured(math, index, query);
            let candidates = crate::ivf::as_neighbors(index.exact(math, query), shortlist);
            let kept = crate::pq::representable(candidates);
            let found = crate::ranking::smallest(kept, limit);
            &&& candidates.len() == shortlist.len()
            &&& nearest_on_shortlist(dist, shortlist, limit, found)
            &&& found.len() == crate::seqs::min(limit, kept.len())
            &&& kept.len() <= candidates.len()
            &&& kept.len() < candidates.len() <==> some_not_finite(dist, shortlist)
            &&& forall|rows: Seq<usize>| #[trigger]
                finite_on_shortlist(dist, shortlist, rows) ==> rows.len() <= kept.len()
        }),
{
    let dist = measured(math, index, query);
    let near = index.exact(math, query);
    let candidates = crate::ivf::as_neighbors(near, shortlist);
    let kept = crate::pq::representable(candidates);
    let found = crate::ranking::smallest(kept, limit);
    crate::ivf_laws::lemma_as_neighbors(near, shortlist);
    crate::pq_laws::lemma_representable(candidates);
    crate::ranking::lemma_smallest_of_distinct(kept, limit);
    assert forall|i: int| 0 <= i < found.len() implies shortlist.contains(
        (#[trigger] found[i]).row,
    ) && crate::bits::finite_32(found[i].distance) && found[i] == near(found[i].row) by {
        assert(found.contains(found[i]));
        assert(kept.contains(found[i]));
        assert(candidates.contains(found[i]));
    }
    assert forall|i: int, j: int| 0 <= i < j < found.len() implies crate::graph_laws::ahead(
        dist,
        (#[trigger] found[i]).row,
        (#[trigger] found[j]).row,
    ) by {
        assert(!crate::ranking::precedes(found[j].rank(), found[i].rank()));
        if found[i].row == found[j].row {
            assert(found[i] == found[j]);
        }
    }
    assert forall|row: usize| #[trigger]
        shortlist.contains(row) && crate::bits::finite_32(
            dist(row),
        ) implies crate::graph_laws::found_or_beaten(dist, found, limit, row) by {
        let item = near(row);
        assert(candidates.contains(item));
        assert(kept.contains(item));
        if found.contains(item) {
            let i = choose|i: int| 0 <= i < found.len() && found[i] == item;
            assert(found[i].row == row);
        } else {
            crate::ranking::lemma_left_out(kept, limit, item);
            assert forall|i: int| 0 <= i < found.len() implies crate::graph_laws::ahead(
                dist,
                (#[trigger] found[i]).row,
                row,
            ) by {
                assert(crate::ranking::precedes(found[i].rank(), item.rank()));
            }
        }
    }
    crate::seqs::lemma_distinct_part(kept, candidates);
    if some_not_finite(dist, shortlist) {
        let i = choose|i: int|
            0 <= i < shortlist.len() && !crate::bits::finite_32(dist(#[trigger] shortlist[i]));
        assert(candidates[i] == near(shortlist[i]));
        assert(candidates.contains(candidates[i]));
        assert(!kept.contains(candidates[i]));
        if kept.len() == candidates.len() {
            lemma_full_part(kept, candidates, candidates[i]);
        }
    } else {
        assert forall|i: int| 0 <= i < candidates.len() implies crate::bits::finite_32(
            (#[trigger] candidates[i]).distance,
        ) by {
            assert(candidates[i] == near(shortlist[i]));
            assert(crate::bits::finite_32(dist(shortlist[i])));
        }
        crate::pq_laws::lemma_all_representable(candidates);
    }
    assert forall|rows: Seq<usize>| #[trigger]
        finite_on_shortlist(dist, shortlist, rows) implies rows.len() <= kept.len() by {
        let items = crate::ivf::as_neighbors(near, rows);
        crate::ivf_laws::lemma_as_neighbors(near, rows);
        assert forall|x: Neighbor| #[trigger] items.contains(x) implies kept.contains(x) by {
            assert(rows.contains(x.row));
            let i = choose|i: int| 0 <= i < rows.len() && rows[i] == x.row;
            assert(shortlist.contains(rows[i]) && crate::bits::finite_32(dist(rows[i])));
            assert(candidates.contains(x));
        }
        crate::seqs::lemma_distinct_part(items, kept);
    }
}

/// As many distinct items of some distinct items are all of them.
proof fn lemma_full_part(part: Seq<Neighbor>, whole: Seq<Neighbor>, item: Neighbor)
    requires
        part.no_duplicates(),
        whole.no_duplicates(),
        forall|x: Neighbor| #[trigger] part.contains(x) ==> whole.contains(x),
        whole.contains(item),
        !part.contains(item),
    ensures
        part.len() < whole.len(),
{
    let more = part.push(item);
    assert forall|i: int, j: int|
        0 <= i < more.len() && 0 <= j < more.len() && i != j implies more[i] != more[j] by {
        assert(i < part.len() ==> part.contains(more[i]));
        assert(j < part.len() ==> part.contains(more[j]));
    }
    assert forall|x: Neighbor| #[trigger] more.contains(x) implies whole.contains(x) by {
        let i = choose|i: int| 0 <= i < more.len() && more[i] == x;
        if i < part.len() {
            assert(part[i] == x);
            assert(part.contains(x));
        }
    }
    crate::seqs::lemma_distinct_part(more, whole);
}

/// Whether a search answered rightly: it looked at the right rows, and found the
/// nearest of those with finite distances, as many as asked for unless all are
/// finite.
pub open spec fn reranked_rightly<M: VectorMath>(
    math: &M,
    index: &IvfPqIndex,
    query: Seq<u32>,
    k: nat,
    probes: nat,
    rerank: nat,
    order: Seq<usize>,
    shortlist: Seq<usize>,
    found: Seq<Neighbor>,
) -> bool {
    let dist = measured(math, index, query);
    let limit = asked_for(k, index.data()@.len());
    &&& looked_at(math, index, query, k, probes, rerank, order, shortlist)
    &&& nearest_on_shortlist(dist, shortlist, limit, found)
    &&& some_not_finite(dist, shortlist) ==> found.len() == limit
}

/// Whether a search had to be refused: it looked at the right rows, a distance of
/// them is not finite, and fewer are finite than asked for.
pub open spec fn refused_rightly<M: VectorMath>(
    math: &M,
    index: &IvfPqIndex,
    query: Seq<u32>,
    k: nat,
    probes: nat,
    rerank: nat,
    order: Seq<usize>,
    shortlist: Seq<usize>,
) -> bool {
    let dist = measured(math, index, query);
    &&& looked_at(math, index, query, k, probes, rerank, order, shortlist)
    &&& some_not_finite(dist, shortlist)
    &&& forall|rows: Seq<usize>| #[trigger]
        finite_on_shortlist(dist, shortlist, rows) ==> rows.len() < asked_for(
            k,
            index.data()@.len(),
        )
}

proof fn lemma_answered<M: VectorMath>(
    math: &M,
    index: &IvfPqIndex,
    query: Seq<u32>,
    k: usize,
    probes: usize,
    rerank: usize,
    result: Result<Vec<Neighbor>, VectorError>,
)
    requires
        index.wf(),
        index.search_answer(math, query, k, probes, rerank, result),
        result is Ok || (crate::dataset::query_fits(
            index.data().width() as int,
            query,
            Metric::Euclidean,
        ) && 1 <= probes <= index.centers().len() && rerank > 0),
    ensures
        match result {
            Ok(found) => exists|order: Seq<usize>, shortlist: Seq<usize>| #[trigger]
                reranked_rightly(
                    math,
                    index,
                    query,
                    k as nat,
                    probes as nat,
                    rerank as nat,
                    order,
                    shortlist,
                    found@,
                ),
            Err(_) => exists|order: Seq<usize>, shortlist: Seq<usize>| #[trigger]
                refused_rightly(
                    math,
                    index,
                    query,
                    k as nat,
                    probes as nat,
                    rerank as nat,
                    order,
                    shortlist,
                ),
        },
{
    let rows = index.data()@.len();
    let budget = crate::seqs::min(crate::seqs::max(rerank as nat, k as nat), rows);
    let order = index.probed_groups(math, query, probes as nat);
    let shortlist = index.shortlist(math, query, probes as nat, budget);
    let limit = asked_for(k as nat, rows);
    lemma_looked_at(math, index, query, k as nat, probes as nat, rerank as nat);
    lemma_reranked(math, index, query, shortlist, limit);
    match result {
        Ok(found) => {
            assert(reranked_rightly(
                math,
                index,
                query,
                k as nat,
                probes as nat,
                rerank as nat,
                order,
                shortlist,
                found@,
            ));
        },
        Err(_) => {
            assert(refused_rightly(
                math,
                index,
                query,
                k as nat,
                probes as nat,
                rerank as nat,
                order,
                shortlist,
            ));
        },
    }
}

/// A search ranks the rows of the nearest groups by the sums of one squared
/// distance for each subquantizer, measures the best of them, and finds the
/// nearest of these.
pub proof fn searching_measures_the_best_scores<M: VectorMath>(
    math: &M,
    index: &IvfPqIndex,
    query: &[u32],
    k: usize,
    probes: usize,
    rerank: usize,
    found: Vec<Neighbor>,
)
    requires
        index.wf(),
        call_ensures(
            IvfPqIndex::search_with_probes::<M>,
            (index, math, query, k, probes, rerank),
            Ok(found),
        ),
    ensures
        1 <= probes <= index.centers().len(),
        rerank > 0,
        exists|order: Seq<usize>, shortlist: Seq<usize>| #[trigger]
            reranked_rightly(
                math,
                index,
                query@,
                k as nat,
                probes as nat,
                rerank as nat,
                order,
                shortlist,
                found@,
            ),
{
    lemma_answered(math, index, query@, k, probes, rerank, Ok(found));
}

/// A search of a query that fits, with `probes` and `rerank` in range, is refused
/// only where too few of the distances that it measures are finite.
pub proof fn searching_is_refused_for_want_of_finite_distances<M: VectorMath>(
    math: &M,
    index: &IvfPqIndex,
    query: &[u32],
    k: usize,
    probes: usize,
    rerank: usize,
    error: VectorError,
)
    requires
        index.wf(),
        crate::dataset::query_fits(index.data().width() as int, query@, Metric::Euclidean),
        1 <= probes <= index.centers().len(),
        rerank > 0,
        call_ensures(
            IvfPqIndex::search_with_probes::<M>,
            (index, math, query, k, probes, rerank),
            Err(error),
        ),
    ensures
        exists|order: Seq<usize>, shortlist: Seq<usize>| #[trigger]
            refused_rightly(
                math,
                index,
                query@,
                k as nat,
                probes as nat,
                rerank as nat,
                order,
                shortlist,
            ),
{
    lemma_answered(math, index, query@, k, probes, rerank, Err(error));
}

/// A search through the common interface looks at the configured number of
/// groups and measures the configured number of rows.
pub proof fn the_common_search_is_the_configured_one<M: VectorMath>(
    math: &M,
    index: &IvfPqIndex,
    query: &[u32],
    k: usize,
    found: Vec<Neighbor>,
)
    requires
        index.wf(),
        call_ensures(<IvfPqIndex as VectorIndex<M>>::search, (index, math, query, k), Ok(found)),
    ensures
        exists|order: Seq<usize>, shortlist: Seq<usize>| #[trigger]
            reranked_rightly(
                math,
                index,
                query@,
                k as nat,
                index.settings().probes as nat,
                index.settings().rerank as nat,
                order,
                shortlist,
                found@,
            ),
{
    lemma_answered(
        math,
        index,
        query@,
        k,
        index.settings().probes,
        index.settings().rerank,
        Ok(found),
    );
}

/// What a vector differs by from a centroid is computed component by component,
/// and refused where a difference is not finite.
pub proof fn differences_are_taken_by_component<M: VectorMath>(
    math: &M,
    vector: &[u32],
    centroid: &[u32],
    result: Result<Vec<u32>, VectorError>,
)
    requires
        vector@.len() == centroid@.len(),
        call_ensures(finite_residual::<M>, (math, vector, centroid), result),
    ensures
        match result {
            Ok(found) => {
                &&& found@.len() == vector@.len()
                &&& forall|d: int|
                    0 <= d < vector@.len() ==> #[trigger] found@[d] == math.difference_of(
                        vector@[d],
                        centroid@[d],
                    ) && crate::bits::finite_32(found@[d])
            },
            Err(_) => exists|d: int|
                0 <= d < vector@.len() && !crate::bits::finite_32(
                    #[trigger] math.difference_of(vector@[d], centroid@[d]),
                ),
        },
{
    let whole = crate::codebooks::residual(math, vector@, centroid@);
    if result is Err {
        let d = choose|d: int|
            0 <= d < whole.len() && !crate::bits::finite_32(#[trigger] whole[d]);
        assert(!crate::bits::finite_32(math.difference_of(vector@[d], centroid@[d])));
    }
}

/// What a query differs by from a centroid is computed component by component.
pub proof fn wide_differences_are_taken_by_component<M: VectorMath>(
    math: &M,
    query: &[u32],
    centroid: &[u32],
    found: Vec<u64>,
)
    requires
        query@.len() == centroid@.len(),
        call_ensures(query_residual::<M>, (math, query, centroid), found),
    ensures
        found@ == less_wide(math, query@, centroid@),
{
    assert(found@ =~= less_wide(math, query@, centroid@));
}

/// The codes of a vector name, part by part, the nearest codewords.
pub proof fn codes_name_the_nearest_codewords_by_part<M: VectorMath>(
    math: &M,
    vector: &[u32],
    codebooks: &[Vec<Vec<u32>>],
    step: usize,
    codes: Vec<u8>,
    s: int,
)
    requires
        codebooks@.len() * step <= vector@.len(),
        0 <= s < codebooks@.len(),
        0 < codebooks@[s]@.len() <= 256,
        call_ensures(encode_residual::<M>, (math, vector, codebooks, step), codes),
    ensures
        codes@.len() == codebooks@.len(),
        crate::cluster_laws::first_of(
            |w: usize|
                crate::bits::order_64(
                    math.squared_distance_of(
                        part(vector@, s, step as nat),
                        codebooks@[s]@[w as int]@,
                    ),
                ),
            codebooks@[s]@.len(),
            codes@[s] as usize,
        ),
{
    let piece = part(vector@, s, step as nat);
    let book = crate::dataset::contents(codebooks@[s]@);
    crate::codebooks::lemma_slice_fits(s, codebooks@.len() as int, step as int);
    assert(crate::codebooks::slice_of(vector@, s, step as int) =~= piece);
    assert(crate::codebooks::books(codebooks@)[s] == book);
    let code = codes@[s] as usize;
    assert(code == crate::codebooks::code_of(math, piece, book));
    let pieces = seq![piece];
    crate::cluster_laws::lemma_code_picks(math, pieces, book, 0);
    assert(crate::cluster_laws::picks(
        crate::cluster_laws::codeword_key(math, pieces, book),
        book.len(),
        0,
        code,
    ));
    let at = |x: usize| crate::cluster_laws::codeword_key(math, pieces, book)(0, x);
    let key = |w: usize|
        crate::bits::order_64(math.squared_distance_of(piece, codebooks@[s]@[w as int]@));
    assert forall|d: usize| d < book.len() && d != code implies #[trigger]
        crate::cluster_laws::sooner(key, code, d) by {
        assert(crate::cluster_laws::sooner(at, code, d));
    }
}

/// The tables hold, for each part and each codeword of its codebook, the squared
/// distance between them.
pub proof fn tables_hold_all_squared_distances<M: VectorMath>(
    math: &M,
    residual: &[u64],
    codebooks: &[Vec<Vec<u32>>],
    step: usize,
    tables: Vec<Vec<u64>>,
)
    requires
        codebooks@.len() * step <= residual@.len(),
        call_ensures(lookup_tables::<M>, (math, residual, codebooks, step), tables),
    ensures
        tables@.len() == codebooks@.len(),
        forall|s: int|
            0 <= s < codebooks@.len() ==> (#[trigger] tables@[s])@.len() == codebooks@[s]@.len(),
        forall|s: int, w: int|
            0 <= s < codebooks@.len() && 0 <= w < codebooks@[s]@.len()
                ==> #[trigger] tables@[s]@[w] == math.residual_distance_of(
                part(residual@, s, step as nat),
                codebooks@[s]@[w]@,
            ),
{
    let all = crate::dataset::contents(tables@);
    assert(all.len() == tables@.len());
    assert forall|s: int| 0 <= s < codebooks@.len() implies (#[trigger] tables@[s])@.len()
        == codebooks@[s]@.len() by {
        assert(all[s] == tables@[s]@);
        assert(crate::codebooks::books(codebooks@)[s].len() == codebooks@[s]@.len());
    }
    assert forall|s: int, w: int|
        0 <= s < codebooks@.len() && 0 <= w < codebooks@[s]@.len() implies #[trigger] tables@[s]@[w]
        == math.residual_distance_of(
        part(residual@, s, step as nat),
        codebooks@[s]@[w]@,
    ) by {
        assert(all[s] == tables@[s]@);
        crate::codebooks::lemma_slice_fits(s, codebooks@.len() as int, step as int);
        assert(crate::codebooks::slice_of(residual@, s, step as int) =~= part(
            residual@,
            s,
            step as nat,
        ));
        assert(crate::codebooks::books(codebooks@)[s][w] == codebooks@[s]@[w]@);
    }
}

} // verus!
