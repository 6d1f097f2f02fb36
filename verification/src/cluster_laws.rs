//! What training centroids and codebooks does, said of distances, means and
//! rows alone.
//!
//! A key says how far something stands: the position of its distance in the
//! total order of its format.

use vstd::prelude::*;

use crate::clusters::{assign_rows, farthest_row, lists_from_assignments, nearest_centroid};
use crate::codebooks::{nearest_codeword, train_codebook};
use crate::dataset::Dataset;
use crate::ivf::train_centroids;
use crate::math::VectorMath;
use crate::ranking::Ranked;
use crate::shuffle::shuffle;
use crate::types::Metric;

verus! {

/// Whether `a` has a smaller key than `b`, or the same and stands before it.
pub open spec fn sooner(key: spec_fn(usize) -> int, a: usize, b: usize) -> bool {
    key(a) < key(b) || (key(a) == key(b) && a < b)
}

/// Whether `c` is the first of `count` by `key`.
pub open spec fn first_of(key: spec_fn(usize) -> int, count: nat, c: usize) -> bool {
    c < count && forall|d: usize| d < count && d != c ==> #[trigger] sooner(key, c, d)
}

/// Whether row `row` picks `c` of `count`: `key` says how far each of these is
/// from the row.
pub open spec fn picks(
    key: spec_fn(usize, usize) -> int,
    count: nat,
    row: usize,
    c: usize,
) -> bool {
    first_of(|x: usize| key(row, x), count, c)
}

/// Whether `list` are the rows that pick `c`, ascending.
pub open spec fn picked_by(
    key: spec_fn(usize, usize) -> int,
    rows: nat,
    count: nat,
    c: usize,
    list: Seq<usize>,
) -> bool {
    &&& forall|i: int, j: int|
        0 <= i < j < list.len() ==> (#[trigger] list[i]) < (#[trigger] list[j])
    &&& forall|row: usize| #[trigger]
        list.contains(row) <==> row < rows && picks(key, count, row, c)
}

/// Whether every row picks the same by either key.
pub open spec fn same_picks(
    left: spec_fn(usize, usize) -> int,
    right: spec_fn(usize, usize) -> int,
    rows: nat,
    count: nat,
) -> bool {
    forall|row: usize, c: usize|
        row < rows ==> (#[trigger] picks(left, count, row, c) <==> picks(right, count, row, c))
}

/// Whether `mean` is the mean of the vectors in the rows `list`, component by
/// component, in the order of the rows.
pub open spec fn is_mean<M: VectorMath>(
    math: &M,
    vectors: Seq<Seq<u32>>,
    list: Seq<usize>,
    width: nat,
    mean: Seq<u32>,
) -> bool {
    &&& mean.len() == width
    &&& forall|d: int|
        0 <= d < width ==> #[trigger] mean[d] == math.mean_of(
            Seq::new(list.len(), |j: int| vectors[list[j] as int][d]),
        )
}

/// Whether `unit` is `vector` with each component divided by its norm.
pub open spec fn is_scaled<M: VectorMath>(math: &M, vector: Seq<u32>, unit: Seq<u32>) -> bool {
    &&& unit.len() == vector.len()
    &&& forall|d: int|
        0 <= d < vector.len() ==> #[trigger] unit[d] == math.quotient_of(
            vector[d],
            math.norm_of(vector),
        )
}

/// Whether `result` is `vector`, by angle scaled to norm one; where its norm is
/// zero, `spare` scaled; where that norm is zero too, `spare` as it is.
pub open spec fn is_fit<M: VectorMath>(
    math: &M,
    metric: Metric,
    vector: Seq<u32>,
    spare: Seq<u32>,
    result: Seq<u32>,
) -> bool {
    if metric == Metric::Euclidean {
        result == vector
    } else if !crate::bits::zero_64(math.norm_of(vector)) {
        is_scaled(math, vector, result)
    } else if !crate::bits::zero_64(math.norm_of(spare)) {
        is_scaled(math, spare, result)
    } else {
        result == spare
    }
}

/// How far each centroid is from each row.
pub open spec fn centroid_key<M: VectorMath>(
    math: &M,
    metric: Metric,
    vectors: Seq<Seq<u32>>,
    centroids: Seq<Seq<u32>>,
) -> spec_fn(usize, usize) -> int {
    |row: usize, c: usize|
        crate::bits::order_32(
            math.distance_of(metric, centroids[c as int], vectors[row as int]),
        )
}

/// Whether row `row` was given to an empty cluster before cluster `c`.
pub open spec fn taken(
    key: spec_fn(usize, usize) -> int,
    rows: nat,
    count: nat,
    seeds: Seq<usize>,
    c: int,
    row: usize,
) -> bool {
    exists|d: usize|
        d < c && #[trigger] picked_by(key, rows, count, d, Seq::empty()) && seeds[d as int] == row
}

/// Whether row `far` is at least as far from the centroid that it picks as row
/// `row` from its own, and before it where they are as far.
pub open spec fn no_nearer<M: VectorMath>(
    math: &M,
    metric: Metric,
    vectors: Seq<Seq<u32>>,
    centroids: Seq<Seq<u32>>,
    far: usize,
    row: usize,
) -> bool {
    let key = centroid_key(math, metric, vectors, centroids);
    forall|a: usize, b: usize| #[trigger]
        picks(key, centroids.len(), far, a) && #[trigger] picks(key, centroids.len(), row, b) ==> {
            let p = crate::bits::order_32(
                math.distance_of(metric, vectors[far as int], centroids[a as int]),
            );
            let q = crate::bits::order_32(
                math.distance_of(metric, vectors[row as int], centroids[b as int]),
            );
            q < p || (q == p && far <= row)
        }
}

/// Whether centroid `c` moved rightly: to the mean of the rows that pick it,
/// `lists[c]`; or, where none does, to row `seeds[c]`, the farthest from the
/// centroid that it picks of those that no empty cluster before it was given.
pub open spec fn moved_rightly<M: VectorMath>(
    math: &M,
    metric: Metric,
    vectors: Seq<Seq<u32>>,
    width: nat,
    before: Seq<Seq<u32>>,
    after: Seq<Seq<u32>>,
    lists: Seq<Seq<usize>>,
    means: Seq<Seq<u32>>,
    seeds: Seq<usize>,
    c: usize,
) -> bool {
    let key = centroid_key(math, metric, vectors, before);
    let list = lists[c as int];
    let mean = means[c as int];
    let seed = seeds[c as int];
    &&& picked_by(key, vectors.len(), before.len(), c, list)
    &&& if list.len() > 0 {
        &&& is_mean(math, vectors, list, width, mean)
        &&& is_fit(math, metric, mean, vectors[list[0] as int], after[c as int])
    } else {
        &&& seed < vectors.len()
        &&& !taken(key, vectors.len(), before.len(), seeds, c as int, seed)
        &&& is_fit(math, metric, vectors[seed as int], vectors[seed as int], after[c as int])
        &&& forall|row: usize|
            row < vectors.len() && !taken(
                key,
                vectors.len(),
                before.len(),
                seeds,
                c as int,
                row,
            ) ==> #[trigger] no_nearer(math, metric, vectors, before, seed, row)
    }
}

/// Whether every centroid moved rightly.
pub open spec fn all_moved_rightly<M: VectorMath>(
    math: &M,
    metric: Metric,
    vectors: Seq<Seq<u32>>,
    width: nat,
    before: Seq<Seq<u32>>,
    after: Seq<Seq<u32>>,
    lists: Seq<Seq<usize>>,
    means: Seq<Seq<u32>>,
    seeds: Seq<usize>,
) -> bool {
    forall|c: usize|
        c < before.len() ==> #[trigger] moved_rightly(
            math,
            metric,
            vectors,
            width,
            before,
            after,
            lists,
            means,
            seeds,
            c,
        )
}

/// Whether `after` is what a round of training makes of the centroids `before`:
/// each row picks the nearest of them, and each of them moves to the mean of the
/// rows that pick it.
pub open spec fn is_round<M: VectorMath>(
    math: &M,
    metric: Metric,
    vectors: Seq<Seq<u32>>,
    width: nat,
    before: Seq<Seq<u32>>,
    after: Seq<Seq<u32>>,
) -> bool {
    &&& after.len() == before.len()
    &&& exists|lists: Seq<Seq<usize>>, means: Seq<Seq<u32>>, seeds: Seq<usize>| #[trigger]
        all_moved_rightly(math, metric, vectors, width, before, after, lists, means, seeds)
}

/// A row picks the centroid nearest to it and no other.
pub proof fn lemma_picks<M: VectorMath>(
    math: &M,
    metric: Metric,
    vectors: Seq<Seq<u32>>,
    centroids: Seq<Seq<u32>>,
    row: usize,
)
    requires
        0 < centroids.len() <= usize::MAX,
    ensures
        forall|c: usize| #[trigger]
            picks(centroid_key(math, metric, vectors, centroids), centroids.len(), row, c)
                <==> c == crate::clusters::nearest(math, metric, centroids, vectors[row as int]),
{
    let key = centroid_key(math, metric, vectors, centroids);
    let vector = vectors[row as int];
    let items = crate::clusters::centroid_neighbors(math, metric, centroids, vector);
    let best = crate::clusters::nearest(math, metric, centroids, vector);
    let at = |x: usize| key(row, x);
    crate::clusters::nearest_is_the_nearest(math, metric, centroids, vector);
    assert forall|d: usize| d < centroids.len() && d != best implies #[trigger] sooner(
        at,
        best,
        d,
    ) by {
        assert(crate::ranking::precedes(items[best as int].rank(), items[d as int].rank()));
    }
    assert forall|c: usize| #[trigger] picks(key, centroids.len(), row, c) <==> c == best by {
        if picks(key, centroids.len(), row, c) && c != best {
            assert(sooner(at, c, best));
            assert(sooner(at, best, c));
        }
    }
}

/// The rows of a cluster are those that pick it.
pub proof fn lemma_picked_by<M: VectorMath>(
    math: &M,
    metric: Metric,
    vectors: Seq<Seq<u32>>,
    centroids: Seq<Seq<u32>>,
    c: usize,
)
    requires
        0 < centroids.len() <= usize::MAX,
        vectors.len() <= usize::MAX,
    ensures
        picked_by(
            centroid_key(math, metric, vectors, centroids),
            vectors.len(),
            centroids.len(),
            c,
            crate::clusters::members(
                crate::clusters::assigned(math, metric, vectors, centroids),
                c as int,
            ),
        ),
        picked_by(
            centroid_key(math, metric, vectors, centroids),
            vectors.len(),
            centroids.len(),
            c,
            Seq::empty(),
        ) <==> crate::clusters::members(
            crate::clusters::assigned(math, metric, vectors, centroids),
            c as int,
        ).len() == 0,
{
    let key = centroid_key(math, metric, vectors, centroids);
    let rows = crate::clusters::assigned(math, metric, vectors, centroids);
    let list = crate::clusters::members(rows, c as int);
    crate::clusters::members_are_the_rows_assigned(rows, c as int);
    assert forall|row: usize| #[trigger] list.contains(row) <==> row < vectors.len() && picks(
        key,
        centroids.len(),
        row,
        c,
    ) by {
        lemma_picks(math, metric, vectors, centroids, row);
    }
    let none = Seq::<usize>::empty();
    if list.len() > 0 {
        assert(list.contains(list[0]));
        assert(!none.contains(list[0]));
    } else {
        assert(list =~= none);
    }
}

/// A centroid brought to norm one is what it should be.
proof fn lemma_fit<M: VectorMath>(math: &M, metric: Metric, vector: Seq<u32>, spare: Seq<u32>)
    ensures
        is_fit(math, metric, vector, spare, crate::clusters::fitted(math, metric, vector, spare)),
{
}

/// Where the clusters before `count` are moved to, and which rows the empty ones
/// among them were given.
proof fn lemma_updated<M: VectorMath>(
    math: &M,
    metric: Metric,
    vectors: Seq<Seq<u32>>,
    width: nat,
    centroids: Seq<Seq<u32>>,
    lists: Seq<Seq<usize>>,
    seeds: Seq<usize>,
    count: nat,
)
    requires
        count <= lists.len() == centroids.len() == seeds.len() <= usize::MAX,
        forall|c: int|
            0 <= c < lists.len() && lists[c].len() == 0 ==> #[trigger] seeds[c]
                == crate::clusters::farthest_unskipped(
                math,
                metric,
                vectors,
                centroids,
                crate::clusters::updated(
                    math,
                    metric,
                    vectors,
                    width,
                    centroids,
                    lists,
                    c as nat,
                ).reseeds,
            ).unwrap(),
    ensures
        ({
            let done = crate::clusters::updated(
                math,
                metric,
                vectors,
                width,
                centroids,
                lists,
                count,
            );
            &&& done.centroids.len() == centroids.len()
            &&& forall|c: int|
                0 <= c < count ==> #[trigger] done.centroids[c] == (if lists[c].len() == 0 {
                    crate::clusters::fitted(
                        math,
                        metric,
                        vectors[seeds[c] as int],
                        vectors[seeds[c] as int],
                    )
                } else {
                    crate::clusters::fitted(
                        math,
                        metric,
                        crate::clusters::mean_vector(math, vectors, lists[c], width),
                        vectors[lists[c][0] as int],
                    )
                })
            &&& forall|row: usize| #[trigger]
                done.reseeds.contains(row) <==> exists|d: int|
                    0 <= d < count && lists[d].len() == 0 && #[trigger] seeds[d] == row
        }),
    decreases count,
{
    if count > 0 {
        let less = (count - 1) as nat;
        lemma_updated(math, metric, vectors, width, centroids, lists, seeds, less);
        let done = crate::clusters::updated(
            math,
            metric,
            vectors,
            width,
            centroids,
            lists,
            less,
        );
        let all = crate::clusters::updated(
            math,
            metric,
            vectors,
            width,
            centroids,
            lists,
            count,
        );
        if lists[less as int].len() == 0 {
            let seed = seeds[less as int];
            assert(all.reseeds == done.reseeds.push(seed));
            crate::seqs::lemma_push_contains(done.reseeds, seed);
            assert forall|row: usize| #[trigger] all.reseeds.contains(row) <==> exists|d: int|
                0 <= d < count && lists[d].len() == 0 && #[trigger] seeds[d] == row by {
                assert(done.reseeds.push(seed).contains(row) <==> row == seed
                    || done.reseeds.contains(row));
            }
        }
    }
}

/// Updating the centroids by the rows assigned to them is a round.
pub proof fn lemma_round<M: VectorMath>(
    math: &M,
    metric: Metric,
    vectors: Seq<Seq<u32>>,
    width: nat,
    before: Seq<Seq<u32>>,
)
    requires
        0 < before.len() <= vectors.len() <= usize::MAX,
    ensures
        is_round(
            math,
            metric,
            vectors,
            width,
            before,
            crate::clusters::updated(
                math,
                metric,
                vectors,
                width,
                before,
                crate::clusters::partition(
                    crate::clusters::assigned(math, metric, vectors, before),
                    before.len(),
                ),
                before.len(),
            ).centroids,
        ),
{
    let n = vectors.len();
    let k = before.len();
    let key = centroid_key(math, metric, vectors, before);
    let rows = crate::clusters::assigned(math, metric, vectors, before);
    let lists = crate::clusters::partition(rows, k);
    let after = crate::clusters::updated(
        math,
        metric,
        vectors,
        width,
        before,
        lists,
        k,
    ).centroids;
    let means = Seq::new(
        k,
        |c: int| crate::clusters::mean_vector(math, vectors, lists[c], width),
    );
    let seeds = Seq::new(
        k,
        |c: int|
            crate::clusters::farthest_unskipped(
                math,
                metric,
                vectors,
                before,
                crate::clusters::updated(
                    math,
                    metric,
                    vectors,
                    width,
                    before,
                    lists,
                    c as nat,
                ).reseeds,
            ).unwrap(),
    );
    lemma_updated(math, metric, vectors, width, before, lists, seeds, k);
    assert forall|c: usize| c < k implies #[trigger] moved_rightly(
        math,
        metric,
        vectors,
        width,
        before,
        after,
        lists,
        means,
        seeds,
        c,
    ) by {
        lemma_picked_by(math, metric, vectors, before, c);
        let list = lists[c as int];
        if list.len() > 0 {
            let mean = means[c as int];
            lemma_fit(math, metric, mean, vectors[list[0] as int]);
            assert forall|d: int| 0 <= d < width implies #[trigger] mean[d] == math.mean_of(
                Seq::new(list.len(), |j: int| vectors[list[j] as int][d]),
            ) by {
                assert(crate::clusters::column(vectors, list, d) =~= Seq::new(
                    list.len(),
                    |j: int| vectors[list[j] as int][d],
                ));
            }
        } else {
            lemma_reseeded(math, metric, vectors, width, before, lists, seeds, c);
            let seed = vectors[seeds[c as int] as int];
            lemma_fit(math, metric, seed, seed);
        }
    }
    assert(all_moved_rightly(math, metric, vectors, width, before, after, lists, means, seeds));
}

/// The row that an empty cluster is given is the farthest that none before it
/// was given.
proof fn lemma_reseeded<M: VectorMath>(
    math: &M,
    metric: Metric,
    vectors: Seq<Seq<u32>>,
    width: nat,
    before: Seq<Seq<u32>>,
    lists: Seq<Seq<usize>>,
    seeds: Seq<usize>,
    c: usize,
)
    requires
        c < before.len() <= vectors.len() <= usize::MAX,
        lists == crate::clusters::partition(
            crate::clusters::assigned(math, metric, vectors, before),
            before.len(),
        ),
        seeds.len() == before.len(),
        forall|d: int|
            0 <= d < lists.len() ==> #[trigger] seeds[d] == crate::clusters::farthest_unskipped(
                math,
                metric,
                vectors,
                before,
                crate::clusters::updated(
                    math,
                    metric,
                    vectors,
                    width,
                    before,
                    lists,
                    d as nat,
                ).reseeds,
            ).unwrap(),
    ensures
        ({
            let key = centroid_key(math, metric, vectors, before);
            let seed = seeds[c as int];
            &&& seed < vectors.len()
            &&& !taken(key, vectors.len(), before.len(), seeds, c as int, seed)
            &&& forall|row: usize|
                row < vectors.len() && !taken(
                    key,
                    vectors.len(),
                    before.len(),
                    seeds,
                    c as int,
                    row,
                ) ==> #[trigger] no_nearer(math, metric, vectors, before, seed, row)
        }),
{
    let n = vectors.len();
    let k = before.len();
    let key = centroid_key(math, metric, vectors, before);
    let seed = seeds[c as int];
    let skip = crate::clusters::updated(
        math,
        metric,
        vectors,
        width,
        before,
        lists,
        c as nat,
    ).reseeds;
    lemma_updated(math, metric, vectors, width, before, lists, seeds, c as nat);
    crate::clusters::empty_clusters_take_distinct_rows(
        math,
        metric,
        vectors,
        width,
        before,
        lists,
        c as nat,
    );
    lemma_farthest(math, metric, vectors, before, skip);
    assert forall|row: usize| #[trigger] skip.contains(row) <==> taken(
        key,
        n,
        k,
        seeds,
        c as int,
        row,
    ) by {
        if skip.contains(row) {
            let d = choose|d: int|
                0 <= d < c && lists[d].len() == 0 && #[trigger] seeds[d] == row;
            lemma_picked_by(math, metric, vectors, before, d as usize);
            assert(picked_by(key, n, k, d as usize, Seq::empty()));
        }
        if taken(key, n, k, seeds, c as int, row) {
            let d = choose|d: usize|
                d < c && #[trigger] picked_by(key, n, k, d, Seq::empty()) && seeds[d as int]
                    == row;
            lemma_picked_by(math, metric, vectors, before, d);
            assert(lists[d as int].len() == 0 && seeds[d as int] == row);
        }
    }
    assert(!skip.contains(seed));
    assert forall|row: usize|
        row < n && !taken(key, n, k, seeds, c as int, row) implies #[trigger] no_nearer(
        math,
        metric,
        vectors,
        before,
        seed,
        row,
    ) by {
        assert(!skip.contains(row));
    }
}

/// Two sets of centroids are picked alike where the rows are assigned alike.
proof fn lemma_same_picks<M: VectorMath>(
    math: &M,
    metric: Metric,
    vectors: Seq<Seq<u32>>,
    left: Seq<Seq<u32>>,
    right: Seq<Seq<u32>>,
)
    requires
        0 < left.len() == right.len() <= usize::MAX,
        vectors.len() <= usize::MAX,
    ensures
        same_picks(
            centroid_key(math, metric, vectors, left),
            centroid_key(math, metric, vectors, right),
            vectors.len(),
            left.len(),
        ) <==> crate::clusters::assigned(math, metric, vectors, left)
            == crate::clusters::assigned(math, metric, vectors, right),
{
    let n = vectors.len();
    let k = left.len();
    let a = centroid_key(math, metric, vectors, left);
    let b = centroid_key(math, metric, vectors, right);
    let p = crate::clusters::assigned(math, metric, vectors, left);
    let q = crate::clusters::assigned(math, metric, vectors, right);
    assert forall|row: usize, c: usize| row < n implies (#[trigger] picks(a, k, row, c) <==> c
        == p[row as int]) && (picks(b, k, row, c) <==> c == q[row as int]) by {
        lemma_picks(math, metric, vectors, left, row);
        lemma_picks(math, metric, vectors, right, row);
    }
    if same_picks(a, b, n, k) {
        assert forall|row: int| 0 <= row < n implies p[row] == q[row] by {
            assert(picks(a, k, row as usize, p[row]));
        }
        assert(p =~= q);
    }
}

/// What one more round makes of centroids already trained by some.
proof fn lemma_one_more_round<M: VectorMath>(
    math: &M,
    metric: Metric,
    vectors: Seq<Seq<u32>>,
    width: nat,
    centroids: Seq<Seq<u32>>,
    rows: Seq<usize>,
    rounds: nat,
)
    ensures
        ({
            let at = |n: nat|
                crate::ivf::refined(math, metric, vectors, width, centroids, rows, n);
            let prev = at(rounds);
            let this = at(rounds + 1);
            let next = at(rounds + 2);
            let p = crate::clusters::assigned(math, metric, vectors, prev);
            let q = crate::clusters::assigned(math, metric, vectors, this);
            next == if p == q {
                this
            } else {
                crate::clusters::updated(
                    math,
                    metric,
                    vectors,
                    width,
                    this,
                    crate::clusters::partition(q, this.len()),
                    this.len(),
                ).centroids
            }
        }),
    decreases rounds,
{
    let now = crate::clusters::assigned(math, metric, vectors, centroids);
    let moved = crate::clusters::updated(
        math,
        metric,
        vectors,
        width,
        centroids,
        crate::clusters::partition(now, centroids.len()),
        centroids.len(),
    ).centroids;
    reveal_with_fuel(crate::ivf::refined, 3);
    if now != rows && rounds > 0 {
        lemma_one_more_round(math, metric, vectors, width, moved, now, (rounds - 1) as nat);
        assert(crate::ivf::refined(math, metric, vectors, width, centroids, rows, rounds)
            == crate::ivf::refined(math, metric, vectors, width, moved, now, (rounds
            - 1) as nat));
        assert(crate::ivf::refined(math, metric, vectors, width, centroids, rows, rounds + 1)
            == crate::ivf::refined(math, metric, vectors, width, moved, now, rounds));
        assert(crate::ivf::refined(math, metric, vectors, width, centroids, rows, rounds + 2)
            == crate::ivf::refined(math, metric, vectors, width, moved, now, rounds + 1));
    }
}

/// Training starts from rows of the dataset: those that a shuffle by the same
/// draws puts first.
pub proof fn training_starts_from_the_rows_drawn<M: VectorMath>(
    math: &M,
    dataset: &Dataset,
    metric: Metric,
    partitions: usize,
    draws: &[usize],
    order: Vec<usize>,
    first: Vec<Vec<u32>>,
)
    requires
        call_ensures(shuffle, (dataset@.len() as usize, draws), order),
        call_ensures(
            train_centroids::<M>,
            (math, dataset, metric, partitions, 0usize, draws),
            first,
        ),
        dataset.wf(),
    ensures
        first@.len() == partitions,
        forall|c: int|
            0 <= c < partitions ==> (#[trigger] first@[c])@ == dataset@[order@[c] as int],
{
    assert(dataset@.len() as usize == dataset@.len());
    assert forall|c: int| 0 <= c < partitions implies (#[trigger] first@[c])@
        == dataset@[order@[c] as int] by {
        assert(crate::dataset::contents(first@)[c] == first@[c]@);
    }
}

/// The first round of training is made whatever the rows pick.
pub proof fn training_makes_a_first_round<M: VectorMath>(
    math: &M,
    dataset: &Dataset,
    metric: Metric,
    partitions: usize,
    draws: &[usize],
    first: Vec<Vec<u32>>,
    next: Vec<Vec<u32>>,
)
    requires
        dataset.wf(),
        0 < partitions <= dataset@.len(),
        call_ensures(
            train_centroids::<M>,
            (math, dataset, metric, partitions, 0usize, draws),
            first,
        ),
        call_ensures(
            train_centroids::<M>,
            (math, dataset, metric, partitions, 1usize, draws),
            next,
        ),
    ensures
        is_round(
            math,
            metric,
            dataset@,
            dataset.width(),
            crate::dataset::contents(first@),
            crate::dataset::contents(next@),
        ),
{
    let before = crate::dataset::contents(first@);
    reveal_with_fuel(crate::ivf::refined, 3);
    lemma_round(math, metric, dataset@, dataset.width(), before);
    crate::clusters::nearest_is_the_nearest(math, metric, before, dataset@[0]);
    let rows = crate::clusters::assigned(math, metric, dataset@, before);
    assert(rows[0] != usize::MAX);
    assert(Seq::new(dataset@.len(), |row: int| usize::MAX)[0] == usize::MAX);
}

/// Training by one more iteration makes one more round of what training gave,
/// unless the rows picked the same in the last round: then it changes nothing.
pub proof fn training_goes_on_round_by_round<M: VectorMath>(
    math: &M,
    dataset: &Dataset,
    metric: Metric,
    partitions: usize,
    iterations: usize,
    draws: &[usize],
    last: Vec<Vec<u32>>,
    this: Vec<Vec<u32>>,
    next: Vec<Vec<u32>>,
)
    requires
        dataset.wf(),
        0 < partitions <= dataset@.len(),
        iterations + 2 <= usize::MAX,
        call_ensures(
            train_centroids::<M>,
            (math, dataset, metric, partitions, iterations, draws),
            last,
        ),
        call_ensures(
            train_centroids::<M>,
            (math, dataset, metric, partitions, (iterations + 1) as usize, draws),
            this,
        ),
        call_ensures(
            train_centroids::<M>,
            (math, dataset, metric, partitions, (iterations + 2) as usize, draws),
            next,
        ),
    ensures
        ({
            let a = crate::dataset::contents(last@);
            let b = crate::dataset::contents(this@);
            let c = crate::dataset::contents(next@);
            if same_picks(
                centroid_key(math, metric, dataset@, a),
                centroid_key(math, metric, dataset@, b),
                dataset@.len(),
                partitions as nat,
            ) {
                c == b
            } else {
                is_round(math, metric, dataset@, dataset.width(), b, c)
            }
        }),
{
    let a = crate::dataset::contents(last@);
    let b = crate::dataset::contents(this@);
    lemma_same_picks(math, metric, dataset@, a, b);
    lemma_round(math, metric, dataset@, dataset.width(), b);
    lemma_one_more_round(
        math,
        metric,
        dataset@,
        dataset.width(),
        crate::ivf::first_centroids(dataset@, partitions as nat, draws@),
        Seq::new(dataset@.len(), |row: int| usize::MAX),
        iterations as nat,
    );
}

/// The `width` components of each vector that start at `offset`.
pub open spec fn pieces_at(vectors: Seq<Seq<u32>>, offset: int, width: int) -> Seq<Seq<u32>> {
    Seq::new(vectors.len(), |row: int| Seq::new(width as nat, |d: int| vectors[row][offset + d]))
}

/// How far each codeword is from each piece.
pub open spec fn codeword_key<M: VectorMath>(
    math: &M,
    pieces: Seq<Seq<u32>>,
    codebook: Seq<Seq<u32>>,
) -> spec_fn(usize, usize) -> int {
    |row: usize, c: usize|
        crate::bits::order_64(math.squared_distance_of(pieces[row as int], codebook[c as int]))
}

/// Whether codeword `c` moved rightly: to the mean of the pieces that pick it,
/// `lists[c]`; one that none picks stays.
pub open spec fn codeword_moved<M: VectorMath>(
    math: &M,
    pieces: Seq<Seq<u32>>,
    width: nat,
    before: Seq<Seq<u32>>,
    after: Seq<Seq<u32>>,
    lists: Seq<Seq<usize>>,
    c: usize,
) -> bool {
    let key = codeword_key(math, pieces, before);
    let list = lists[c as int];
    &&& picked_by(key, pieces.len(), before.len(), c, list)
    &&& if list.len() > 0 {
        is_mean(math, pieces, list, width, after[c as int])
    } else {
        after[c as int] == before[c as int]
    }
}

/// Whether every codeword moved rightly.
pub open spec fn codewords_moved<M: VectorMath>(
    math: &M,
    pieces: Seq<Seq<u32>>,
    width: nat,
    before: Seq<Seq<u32>>,
    after: Seq<Seq<u32>>,
    lists: Seq<Seq<usize>>,
) -> bool {
    forall|c: usize|
        c < before.len() ==> #[trigger] codeword_moved(
            math,
            pieces,
            width,
            before,
            after,
            lists,
            c,
        )
}

/// Whether `after` is what a round of training makes of the codebook `before`:
/// each piece picks the nearest codeword, and each codeword moves to the mean of
/// the pieces that pick it.
pub open spec fn is_codebook_round<M: VectorMath>(
    math: &M,
    pieces: Seq<Seq<u32>>,
    width: nat,
    before: Seq<Seq<u32>>,
    after: Seq<Seq<u32>>,
) -> bool {
    &&& after.len() == before.len()
    &&& exists|lists: Seq<Seq<usize>>| #[trigger]
        codewords_moved(math, pieces, width, before, after, lists)
}

/// A piece picks the codeword nearest to it and no other.
pub proof fn lemma_code_picks<M: VectorMath>(
    math: &M,
    pieces: Seq<Seq<u32>>,
    codebook: Seq<Seq<u32>>,
    row: usize,
)
    requires
        0 < codebook.len() <= usize::MAX,
    ensures
        forall|c: usize| #[trigger]
            picks(codeword_key(math, pieces, codebook), codebook.len(), row, c) <==> c
                == crate::codebooks::code_of(math, pieces[row as int], codebook),
{
    let key = codeword_key(math, pieces, codebook);
    let piece = pieces[row as int];
    let items = crate::codebooks::codeword_scores(math, piece, codebook);
    let best = crate::codebooks::code_of(math, piece, codebook);
    let at = |x: usize| key(row, x);
    crate::codebooks::code_names_the_nearest(math, piece, codebook);
    assert forall|d: usize| d < codebook.len() && d != best implies #[trigger] sooner(
        at,
        best,
        d,
    ) by {
        assert(crate::ranking::precedes(items[best as int].rank(), items[d as int].rank()));
    }
    assert forall|c: usize| #[trigger] picks(key, codebook.len(), row, c) <==> c == best by {
        if picks(key, codebook.len(), row, c) && c != best {
            assert(sooner(at, c, best));
            assert(sooner(at, best, c));
        }
    }
}

/// Moving the codewords by the codes of the pieces is a round.
proof fn lemma_codebook_round<M: VectorMath>(
    math: &M,
    pieces: Seq<Seq<u32>>,
    width: nat,
    before: Seq<Seq<u32>>,
)
    requires
        0 < before.len() <= usize::MAX,
        pieces.len() <= usize::MAX,
    ensures
        is_codebook_round(
            math,
            pieces,
            width,
            before,
            crate::codebooks::moved(
                math,
                pieces,
                width,
                before,
                crate::codebooks::codes_of(math, pieces, before),
            ),
        ),
{
    let codes = crate::codebooks::codes_of(math, pieces, before);
    let after = crate::codebooks::moved(math, pieces, width, before, codes);
    let key = codeword_key(math, pieces, before);
    let lists = Seq::new(before.len(), |c: int| crate::clusters::members(codes, c));
    assert forall|c: usize| c < before.len() implies #[trigger] codeword_moved(
        math,
        pieces,
        width,
        before,
        after,
        lists,
        c,
    ) by {
        let list = lists[c as int];
        crate::clusters::members_are_the_rows_assigned(codes, c as int);
        assert forall|row: usize| #[trigger] list.contains(row) <==> row < pieces.len() && picks(
            key,
            before.len(),
            row,
            c,
        ) by {
            lemma_code_picks(math, pieces, before, row);
        }
        if list.len() > 0 {
            let mean = after[c as int];
            assert forall|d: int| 0 <= d < width implies #[trigger] mean[d] == math.mean_of(
                Seq::new(list.len(), |j: int| pieces[list[j] as int][d]),
            ) by {
                assert(crate::clusters::column(pieces, list, d) =~= Seq::new(
                    list.len(),
                    |j: int| pieces[list[j] as int][d],
                ));
            }
        }
    }
    assert(codewords_moved(math, pieces, width, before, after, lists));
}

/// Two codebooks are picked alike where the pieces have the same codes.
proof fn lemma_same_codes<M: VectorMath>(
    math: &M,
    pieces: Seq<Seq<u32>>,
    left: Seq<Seq<u32>>,
    right: Seq<Seq<u32>>,
)
    requires
        0 < left.len() == right.len() <= usize::MAX,
        pieces.len() <= usize::MAX,
    ensures
        same_picks(
            codeword_key(math, pieces, left),
            codeword_key(math, pieces, right),
            pieces.len(),
            left.len(),
        ) <==> crate::codebooks::codes_of(math, pieces, left) == crate::codebooks::codes_of(
            math,
            pieces,
            right,
        ),
{
    let n = pieces.len();
    let k = left.len();
    let a = codeword_key(math, pieces, left);
    let b = codeword_key(math, pieces, right);
    let p = crate::codebooks::codes_of(math, pieces, left);
    let q = crate::codebooks::codes_of(math, pieces, right);
    assert forall|row: usize, c: usize| row < n implies (#[trigger] picks(a, k, row, c) <==> c
        == p[row as int]) && (picks(b, k, row, c) <==> c == q[row as int]) by {
        lemma_code_picks(math, pieces, left, row);
        lemma_code_picks(math, pieces, right, row);
    }
    if same_picks(a, b, n, k) {
        assert forall|row: int| 0 <= row < n implies p[row] == q[row] by {
            assert(picks(a, k, row as usize, p[row]));
        }
        assert(p =~= q);
    }
}

/// What one more round makes of a codebook already trained by some.
proof fn lemma_one_more_codebook_round<M: VectorMath>(
    math: &M,
    pieces: Seq<Seq<u32>>,
    width: nat,
    codebook: Seq<Seq<u32>>,
    codes: Seq<usize>,
    rounds: nat,
)
    ensures
        ({
            let at = |n: nat| crate::codebooks::refined(math, pieces, width, codebook, codes, n);
            let p = crate::codebooks::codes_of(math, pieces, at(rounds));
            let q = crate::codebooks::codes_of(math, pieces, at(rounds + 1));
            at(rounds + 2) == if p == q {
                at(rounds + 1)
            } else {
                crate::codebooks::moved(math, pieces, width, at(rounds + 1), q)
            }
        }),
    decreases rounds,
{
    let now = crate::codebooks::codes_of(math, pieces, codebook);
    let moved = crate::codebooks::moved(math, pieces, width, codebook, now);
    reveal_with_fuel(crate::codebooks::refined, 3);
    if now != codes && rounds > 0 {
        lemma_one_more_codebook_round(math, pieces, width, moved, now, (rounds - 1) as nat);
        assert(crate::codebooks::refined(math, pieces, width, codebook, codes, rounds)
            == crate::codebooks::refined(math, pieces, width, moved, now, (rounds - 1) as nat));
        assert(crate::codebooks::refined(math, pieces, width, codebook, codes, rounds + 1)
            == crate::codebooks::refined(math, pieces, width, moved, now, rounds));
        assert(crate::codebooks::refined(math, pieces, width, codebook, codes, rounds + 2)
            == crate::codebooks::refined(math, pieces, width, moved, now, rounds + 1));
    }
}

/// Slices are what [`pieces_at`] says.
pub proof fn lemma_pieces(vectors: Seq<Seq<u32>>, offset: int, width: int)
    requires
        0 <= offset,
        0 <= width,
        forall|row: int|
            0 <= row < vectors.len() ==> offset + width <= (#[trigger] vectors[row]).len(),
    ensures
        crate::codebooks::slices(vectors, offset, width) == pieces_at(vectors, offset, width),
{
    let left = crate::codebooks::slices(vectors, offset, width);
    let right = pieces_at(vectors, offset, width);
    assert forall|row: int| 0 <= row < vectors.len() implies left[row] == right[row] by {
        assert(left[row] =~= right[row]);
    }
    assert(left =~= right);
}

/// Training a codebook starts from pieces of the residuals: those of the rows
/// that a shuffle by the same draws puts first.
pub proof fn codebooks_start_from_the_rows_drawn<M: VectorMath>(
    math: &M,
    residuals: &[Vec<u32>],
    offset: usize,
    slice_dim: usize,
    codebook_size: usize,
    draws: &[usize],
    order: Vec<usize>,
    first: Vec<Vec<u32>>,
)
    requires
        codebook_size <= residuals@.len(),
        crate::codebooks::reach(residuals@, offset + slice_dim),
        call_ensures(shuffle, (residuals@.len() as usize, draws), order),
        call_ensures(
            train_codebook::<M>,
            (math, residuals, offset, slice_dim, codebook_size, 0usize, draws),
            first,
        ),
    ensures
        first@.len() == codebook_size,
        forall|c: int, d: int|
            0 <= c < codebook_size && 0 <= d < slice_dim ==> #[trigger] first@[c]@[d]
                == residuals@[order@[c] as int]@[offset + d],
{
    let vectors = crate::dataset::contents(residuals@);
    assert(residuals.len() == residuals@.len());
    lemma_pieces(vectors, offset as int, slice_dim as int);
    assert forall|c: int, d: int|
        0 <= c < codebook_size && 0 <= d < slice_dim implies #[trigger] first@[c]@[d]
        == residuals@[order@[c] as int]@[offset + d] by {
        assert(crate::dataset::contents(first@)[c] == first@[c]@);
        assert(order@[c] < residuals@.len());
        assert(vectors[order@[c] as int] == residuals@[order@[c] as int]@);
    }
}

/// The first round of training a codebook is made whatever the pieces pick.
pub proof fn codebooks_make_a_first_round<M: VectorMath>(
    math: &M,
    residuals: &[Vec<u32>],
    offset: usize,
    slice_dim: usize,
    codebook_size: usize,
    draws: &[usize],
    first: Vec<Vec<u32>>,
    next: Vec<Vec<u32>>,
)
    requires
        0 < codebook_size <= residuals@.len(),
        crate::codebooks::reach(residuals@, offset + slice_dim),
        call_ensures(
            train_codebook::<M>,
            (math, residuals, offset, slice_dim, codebook_size, 0usize, draws),
            first,
        ),
        call_ensures(
            train_codebook::<M>,
            (math, residuals, offset, slice_dim, codebook_size, 1usize, draws),
            next,
        ),
    ensures
        is_codebook_round(
            math,
            pieces_at(
                crate::dataset::contents(residuals@),
                offset as int,
                slice_dim as int,
            ),
            slice_dim as nat,
            crate::dataset::contents(first@),
            crate::dataset::contents(next@),
        ),
{
    let vectors = crate::dataset::contents(residuals@);
    assert(residuals.len() == residuals@.len());
    lemma_pieces(vectors, offset as int, slice_dim as int);
    let pieces = pieces_at(vectors, offset as int, slice_dim as int);
    let before = crate::dataset::contents(first@);
    reveal_with_fuel(crate::codebooks::refined, 3);
    lemma_codebook_round(math, pieces, slice_dim as nat, before);
    crate::codebooks::code_names_the_nearest(math, pieces[0], before);
    let codes = crate::codebooks::codes_of(math, pieces, before);
    assert(codes[0] != usize::MAX);
    assert(Seq::new(pieces.len(), |row: int| usize::MAX)[0] == usize::MAX);
}

/// Training a codebook by one more iteration makes one more round of what
/// training gave, unless the pieces picked the same in the last round: then it
/// changes nothing.
pub proof fn codebooks_go_on_round_by_round<M: VectorMath>(
    math: &M,
    residuals: &[Vec<u32>],
    offset: usize,
    slice_dim: usize,
    codebook_size: usize,
    iterations: usize,
    draws: &[usize],
    last: Vec<Vec<u32>>,
    this: Vec<Vec<u32>>,
    next: Vec<Vec<u32>>,
)
    requires
        0 < codebook_size <= residuals@.len(),
        crate::codebooks::reach(residuals@, offset + slice_dim),
        iterations + 2 <= usize::MAX,
        call_ensures(
            train_codebook::<M>,
            (math, residuals, offset, slice_dim, codebook_size, iterations, draws),
            last,
        ),
        call_ensures(
            train_codebook::<M>,
            (
                math,
                residuals,
                offset,
                slice_dim,
                codebook_size,
                (iterations + 1) as usize,
                draws,
            ),
            this,
        ),
        call_ensures(
            train_codebook::<M>,
            (
                math,
                residuals,
                offset,
                slice_dim,
                codebook_size,
                (iterations + 2) as usize,
                draws,
            ),
            next,
        ),
    ensures
        ({
            let pieces = pieces_at(
                crate::dataset::contents(residuals@),
                offset as int,
                slice_dim as int,
            );
            let a = crate::dataset::contents(last@);
            let b = crate::dataset::contents(this@);
            let c = crate::dataset::contents(next@);
            if same_picks(
                codeword_key(math, pieces, a),
                codeword_key(math, pieces, b),
                pieces.len(),
                codebook_size as nat,
            ) {
                c == b
            } else {
                is_codebook_round(math, pieces, slice_dim as nat, b, c)
            }
        }),
{
    let vectors = crate::dataset::contents(residuals@);
    assert(residuals.len() == residuals@.len());
    lemma_pieces(vectors, offset as int, slice_dim as int);
    let pieces = pieces_at(vectors, offset as int, slice_dim as int);
    let a = crate::dataset::contents(last@);
    let b = crate::dataset::contents(this@);
    lemma_same_codes(math, pieces, a, b);
    lemma_codebook_round(math, pieces, slice_dim as nat, b);
    lemma_one_more_codebook_round(
        math,
        pieces,
        slice_dim as nat,
        crate::codebooks::first_codebook(pieces, codebook_size as nat, draws@),
        Seq::new(pieces.len(), |row: int| usize::MAX),
        iterations as nat,
    );
}

/// The nearest centroid of a vector comes before every other by its distance,
/// then by its place.
pub proof fn the_nearest_centroid_comes_first<M: VectorMath>(
    math: &M,
    vector: &[u32],
    centroids: &[Vec<u32>],
    metric: Metric,
    cluster: usize,
)
    requires
        centroids@.len() > 0,
        call_ensures(nearest_centroid::<M>, (math, vector, centroids, metric), cluster),
    ensures
        first_of(
            |c: usize|
                crate::bits::order_32(
                    math.distance_of(metric, centroids@[c as int]@, vector@),
                ),
            centroids@.len(),
            cluster,
        ),
{
    let all = crate::dataset::contents(centroids@);
    let vectors = seq![vector@];
    let key = |c: usize|
        crate::bits::order_32(math.distance_of(metric, centroids@[c as int]@, vector@));
    let at = |x: usize| centroid_key(math, metric, vectors, all)(0, x);
    assert(centroids.len() == centroids@.len());
    lemma_picks(math, metric, vectors, all, 0);
    assert(picks(centroid_key(math, metric, vectors, all), all.len(), 0, cluster));
    assert forall|d: usize| d < all.len() && d != cluster implies #[trigger] sooner(
        key,
        cluster,
        d,
    ) by {
        assert(sooner(at, cluster, d));
    }
}

/// The nearest codeword of a piece comes before every other by its squared
/// distance, then by its place.
pub proof fn the_nearest_codeword_comes_first<M: VectorMath>(
    math: &M,
    piece: &[u32],
    codebook: &[Vec<u32>],
    code: usize,
)
    requires
        codebook@.len() > 0,
        call_ensures(nearest_codeword::<M>, (math, piece, codebook), code),
    ensures
        first_of(
            |c: usize|
                crate::bits::order_64(math.squared_distance_of(piece@, codebook@[c as int]@)),
            codebook@.len(),
            code,
        ),
{
    let all = crate::dataset::contents(codebook@);
    let pieces = seq![piece@];
    let key = |c: usize|
        crate::bits::order_64(math.squared_distance_of(piece@, codebook@[c as int]@));
    let at = |x: usize| codeword_key(math, pieces, all)(0, x);
    assert(codebook.len() == codebook@.len());
    lemma_code_picks(math, pieces, all, 0);
    assert(picks(codeword_key(math, pieces, all), all.len(), 0, code));
    assert forall|d: usize| d < all.len() && d != code implies #[trigger] sooner(key, code, d) by {
        assert(sooner(at, code, d));
    }
}

/// Rows are assigned to the centroids that they pick.
pub proof fn rows_are_assigned_to_what_they_pick<M: VectorMath>(
    math: &M,
    dataset: &Dataset,
    metric: Metric,
    centroids: &[Vec<u32>],
    assignments: Vec<usize>,
)
    requires
        dataset.wf(),
        centroids@.len() > 0,
        call_ensures(assign_rows::<M>, (math, dataset, metric, centroids), assignments),
    ensures
        assignments@.len() == dataset@.len(),
        forall|row: usize|
            row < dataset@.len() ==> picks(
                centroid_key(math, metric, dataset@, crate::dataset::contents(centroids@)),
                centroids@.len(),
                row,
                #[trigger] assignments@[row as int],
            ),
{
    let all = crate::dataset::contents(centroids@);
    assert(centroids.len() == centroids@.len());
    assert forall|row: usize| row < dataset@.len() implies picks(
        centroid_key(math, metric, dataset@, all),
        all.len(),
        row,
        #[trigger] assignments@[row as int],
    ) by {
        lemma_picks(math, metric, dataset@, all, row);
    }
}

/// Each list holds the rows assigned to its cluster, ascending.
pub proof fn lists_hold_the_rows_assigned(
    assignments: &[usize],
    partitions: usize,
    lists: Vec<Vec<usize>>,
)
    requires
        call_ensures(lists_from_assignments, (assignments, partitions), lists),
    ensures
        lists@.len() == partitions,
        forall|c: int, row: usize|
            0 <= c < partitions ==> (#[trigger] lists@[c]@.contains(row) <==> row
                < assignments@.len() && assignments@[row as int] == c),
        forall|c: int, i: int, j: int|
            #![trigger lists@[c]@[i], lists@[c]@[j]]
            0 <= c < partitions && 0 <= i < j < lists@[c]@.len() ==> lists@[c]@[i]
                < lists@[c]@[j],
{
    let all = crate::dataset::contents(lists@);
    assert(assignments.len() == assignments@.len());
    assert(all.len() == lists@.len());
    assert forall|c: int| 0 <= c < partitions implies #[trigger] lists@[c]@
        == crate::clusters::members(assignments@, c) by {
        assert(all[c] == lists@[c]@);
    }
    assert forall|c: int, row: usize| 0 <= c < partitions implies (
    #[trigger] lists@[c]@.contains(row) <==> row < assignments@.len() && assignments@[row as int]
        == c) by {
        crate::clusters::members_are_the_rows_assigned(assignments@, c);
    }
    assert forall|c: int, i: int, j: int|
        #![trigger lists@[c]@[i], lists@[c]@[j]]
        0 <= c < partitions && 0 <= i < j < lists@[c]@.len() implies lists@[c]@[i]
        < lists@[c]@[j] by {
        crate::clusters::members_are_the_rows_assigned(assignments@, c);
    }
}

/// The farthest row is not skipped, and no other that is not skipped is farther
/// from the centroid that it picks, nor as far and before it.
pub proof fn the_farthest_row_is_no_nearer_than_the_others<M: VectorMath>(
    math: &M,
    dataset: &Dataset,
    metric: Metric,
    centroids: &[Vec<u32>],
    skip: &[usize],
    far: usize,
)
    requires
        dataset.wf(),
        centroids@.len() > 0,
        call_ensures(farthest_row::<M>, (math, dataset, metric, centroids, skip), far),
    ensures
        far < dataset@.len(),
        !skip@.contains(far),
        forall|row: usize|
            row < dataset@.len() && !skip@.contains(row) ==> #[trigger] no_nearer(
                math,
                metric,
                dataset@,
                crate::dataset::contents(centroids@),
                far,
                row,
            ),
{
    let all = crate::dataset::contents(centroids@);
    assert(centroids.len() == centroids@.len());
    let items = crate::clusters::spread(math, metric, dataset@, all);
    crate::clusters::farthest_is_the_farthest(items, skip@);
    let best = crate::clusters::farthest(items, skip@).unwrap();
    let b = choose|b: int|
        0 <= b < items.len() && items[b] == best && forall|i: int|
            0 <= i < b && !skip@.contains((#[trigger] items[i]).row) ==> crate::bits::order_32(
                items[i].distance,
            ) < crate::bits::order_32(best.distance);
    assert(items[b].row == b);
    assert forall|row: usize|
        row < dataset@.len() && !skip@.contains(row) implies #[trigger] no_nearer(
        math,
        metric,
        dataset@,
        all,
        far,
        row,
    ) by {
        assert(items[row as int].row == row);
        lemma_picks(math, metric, dataset@, all, far);
        lemma_picks(math, metric, dataset@, all, row);
    }
}

/// Whether row `row` was given to an empty list before list `c`.
pub open spec fn given_before(
    lists: Seq<Seq<usize>>,
    seeds: Seq<usize>,
    c: int,
    row: usize,
) -> bool {
    exists|d: int| 0 <= d < c && lists[d].len() == 0 && #[trigger] seeds[d] == row
}

/// Whether centroid `c` moved by its list: to the mean of its rows; or, where it
/// has none, to row `seeds[c]`, the farthest from the centroid that it picks of
/// those that no empty list before it was given.
pub open spec fn moved_by_list<M: VectorMath>(
    math: &M,
    metric: Metric,
    vectors: Seq<Seq<u32>>,
    width: nat,
    before: Seq<Seq<u32>>,
    after: Seq<Seq<u32>>,
    lists: Seq<Seq<usize>>,
    means: Seq<Seq<u32>>,
    seeds: Seq<usize>,
    c: int,
) -> bool {
    let list = lists[c];
    let seed = seeds[c];
    if list.len() > 0 {
        &&& is_mean(math, vectors, list, width, means[c])
        &&& is_fit(math, metric, means[c], vectors[list[0] as int], after[c])
    } else {
        &&& seed < vectors.len()
        &&& !given_before(lists, seeds, c, seed)
        &&& is_fit(math, metric, vectors[seed as int], vectors[seed as int], after[c])
        &&& forall|row: usize|
            row < vectors.len() && !given_before(lists, seeds, c, row) ==> #[trigger] no_nearer(
                math,
                metric,
                vectors,
                before,
                seed,
                row,
            )
    }
}

/// Whether every centroid moved by its list.
pub open spec fn all_moved_by_lists<M: VectorMath>(
    math: &M,
    metric: Metric,
    vectors: Seq<Seq<u32>>,
    width: nat,
    before: Seq<Seq<u32>>,
    after: Seq<Seq<u32>>,
    lists: Seq<Seq<usize>>,
    means: Seq<Seq<u32>>,
    seeds: Seq<usize>,
) -> bool {
    &&& after.len() == before.len()
    &&& forall|c: int|
        0 <= c < before.len() ==> #[trigger] moved_by_list(
            math,
            metric,
            vectors,
            width,
            before,
            after,
            lists,
            means,
            seeds,
            c,
        )
}

/// Updating centroids moves each by its list.
pub proof fn lemma_moved_by_lists<M: VectorMath>(
    math: &M,
    metric: Metric,
    vectors: Seq<Seq<u32>>,
    width: nat,
    before: Seq<Seq<u32>>,
    lists: Seq<Seq<usize>>,
)
    requires
        lists.len() == before.len() <= vectors.len() <= usize::MAX,
    ensures
        exists|means: Seq<Seq<u32>>, seeds: Seq<usize>| #[trigger]
            all_moved_by_lists(
                math,
                metric,
                vectors,
                width,
                before,
                crate::clusters::updated(
                    math,
                    metric,
                    vectors,
                    width,
                    before,
                    lists,
                    lists.len(),
                ).centroids,
                lists,
                means,
                seeds,
            ),
{
    let n = vectors.len();
    let k = before.len();
    let after = crate::clusters::updated(
        math,
        metric,
        vectors,
        width,
        before,
        lists,
        k,
    ).centroids;
    let means = Seq::new(
        k,
        |c: int| crate::clusters::mean_vector(math, vectors, lists[c], width),
    );
    let seeds = Seq::new(
        k,
        |c: int|
            crate::clusters::farthest_unskipped(
                math,
                metric,
                vectors,
                before,
                crate::clusters::updated(
                    math,
                    metric,
                    vectors,
                    width,
                    before,
                    lists,
                    c as nat,
                ).reseeds,
            ).unwrap(),
    );
    lemma_updated(math, metric, vectors, width, before, lists, seeds, k);
    assert forall|c: int| 0 <= c < k implies #[trigger] moved_by_list(
        math,
        metric,
        vectors,
        width,
        before,
        after,
        lists,
        means,
        seeds,
        c,
    ) by {
        let list = lists[c];
        if list.len() > 0 {
            let mean = means[c];
            lemma_fit(math, metric, mean, vectors[list[0] as int]);
            assert forall|d: int| 0 <= d < width implies #[trigger] mean[d] == math.mean_of(
                Seq::new(list.len(), |j: int| vectors[list[j] as int][d]),
            ) by {
                assert(crate::clusters::column(vectors, list, d) =~= Seq::new(
                    list.len(),
                    |j: int| vectors[list[j] as int][d],
                ));
            }
        } else {
            let skip = crate::clusters::updated(
                math,
                metric,
                vectors,
                width,
                before,
                lists,
                c as nat,
            ).reseeds;
            lemma_updated(math, metric, vectors, width, before, lists, seeds, c as nat);
            crate::clusters::empty_clusters_take_distinct_rows(
                math,
                metric,
                vectors,
                width,
                before,
                lists,
                c as nat,
            );
            lemma_farthest(math, metric, vectors, before, skip);
            let seed = vectors[seeds[c] as int];
            lemma_fit(math, metric, seed, seed);
            assert forall|row: usize| #[trigger] skip.contains(row) <==> given_before(
                lists,
                seeds,
                c,
                row,
            ) by {}
            assert(!skip.contains(seeds[c]));
            assert forall|row: usize|
                row < n && !given_before(lists, seeds, c, row) implies #[trigger] no_nearer(
                math,
                metric,
                vectors,
                before,
                seeds[c],
                row,
            ) by {
                assert(!skip.contains(row));
            }
        }
    }
    assert(all_moved_by_lists(
        math,
        metric,
        vectors,
        width,
        before,
        after,
        lists,
        means,
        seeds,
    ));
}

/// The farthest row of those not skipped, said of distances.
proof fn lemma_farthest<M: VectorMath>(
    math: &M,
    metric: Metric,
    vectors: Seq<Seq<u32>>,
    centroids: Seq<Seq<u32>>,
    skip: Seq<usize>,
)
    requires
        0 < centroids.len() <= usize::MAX,
        skip.len() < vectors.len() <= usize::MAX,
    ensures
        ({
            let far = crate::clusters::farthest_unskipped(
                math,
                metric,
                vectors,
                centroids,
                skip,
            ).unwrap();
            &&& far < vectors.len()
            &&& !skip.contains(far)
            &&& forall|row: usize|
                row < vectors.len() && !skip.contains(row) ==> #[trigger] no_nearer(
                    math,
                    metric,
                    vectors,
                    centroids,
                    far,
                    row,
                )
        }),
{
    crate::clusters::lemma_some_row_is_left(skip, vectors.len());
    let items = crate::clusters::spread(math, metric, vectors, centroids);
    crate::clusters::farthest_is_the_farthest(items, skip);
    let left = choose|row: usize| row < vectors.len() && !skip.contains(row);
    assert(items[left as int].row == left);
    let best = crate::clusters::farthest(items, skip).unwrap();
    let b = choose|b: int|
        0 <= b < items.len() && items[b] == best && forall|i: int|
            0 <= i < b && !skip.contains((#[trigger] items[i]).row) ==> crate::bits::order_32(
                items[i].distance,
            ) < crate::bits::order_32(best.distance);
    assert(items[b].row == b);
    assert forall|row: usize| row < vectors.len() && !skip.contains(row) implies #[trigger]
        no_nearer(math, metric, vectors, centroids, best.row, row) by {
        assert(items[row as int].row == row);
        lemma_picks(math, metric, vectors, centroids, best.row);
        lemma_picks(math, metric, vectors, centroids, row);
    }
}

/// Whether `list` are the places in `codes` that hold `c`, ascending.
pub open spec fn places_of(codes: Seq<usize>, c: int, list: Seq<usize>) -> bool {
    &&& forall|i: int, j: int|
        0 <= i < j < list.len() ==> (#[trigger] list[i]) < (#[trigger] list[j])
    &&& forall|row: usize| #[trigger]
        list.contains(row) <==> row < codes.len() && codes[row as int] == c
}

/// Whether codeword `c` moved by the codes: to the mean of the pieces that have
/// its code; one that none has stays.
pub open spec fn moved_by_codes<M: VectorMath>(
    math: &M,
    pieces: Seq<Seq<u32>>,
    width: nat,
    before: Seq<Seq<u32>>,
    after: Seq<Seq<u32>>,
    codes: Seq<usize>,
    c: int,
) -> bool {
    exists|list: Seq<usize>| #[trigger]
        places_of(codes, c, list) && if list.len() > 0 {
            is_mean(math, pieces, list, width, after[c])
        } else {
            after[c] == before[c]
        }
}

/// Moving the codewords moves each by the codes.
pub proof fn lemma_moved_by_codes<M: VectorMath>(
    math: &M,
    pieces: Seq<Seq<u32>>,
    width: nat,
    before: Seq<Seq<u32>>,
    codes: Seq<usize>,
    c: int,
)
    requires
        0 <= c < before.len(),
        codes.len() <= usize::MAX,
    ensures
        moved_by_codes(
            math,
            pieces,
            width,
            before,
            crate::codebooks::moved(math, pieces, width, before, codes),
            codes,
            c,
        ),
{
    let after = crate::codebooks::moved(math, pieces, width, before, codes);
    let list = crate::clusters::members(codes, c);
    crate::clusters::members_are_the_rows_assigned(codes, c);
    assert(places_of(codes, c, list));
    if list.len() > 0 {
        let mean = after[c];
        assert forall|d: int| 0 <= d < width implies #[trigger] mean[d] == math.mean_of(
            Seq::new(list.len(), |j: int| pieces[list[j] as int][d]),
        ) by {
            assert(crate::clusters::column(pieces, list, d) =~= Seq::new(
                list.len(),
                |j: int| pieces[list[j] as int][d],
            ));
        }
    }
}

} // verus!
