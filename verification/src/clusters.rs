//! Grouping rows around centroids.

use vstd::prelude::*;

use crate::bits::{is_zero_64, total_order_32};
use crate::dataset::Dataset;
use crate::math::VectorMath;
use crate::ranking::Ranked;
use crate::seqs::{copied, holds};
use crate::types::{Metric, Neighbor};

verus! {

/// The centroids, each with its distance to `vector`.
pub open spec fn centroid_neighbors<M: VectorMath>(
    math: &M,
    metric: Metric,
    centroids: Seq<Seq<u32>>,
    vector: Seq<u32>,
) -> Seq<Neighbor> {
    Seq::new(
        centroids.len(),
        |c: int|
            Neighbor {
                row: c as usize,
                distance: math.distance_of(metric, centroids[c], vector),
            },
    )
}

/// The centroid nearest to `vector`, the first of them where several are.
pub open spec fn nearest<M: VectorMath>(
    math: &M,
    metric: Metric,
    centroids: Seq<Seq<u32>>,
    vector: Seq<u32>,
) -> usize {
    crate::ranking::least(centroid_neighbors(math, metric, centroids, vector)).row
}

/// The nearest centroid is a centroid, and every other one is farther, or as
/// far and behind it.
pub proof fn nearest_is_the_nearest<M: VectorMath>(
    math: &M,
    metric: Metric,
    centroids: Seq<Seq<u32>>,
    vector: Seq<u32>,
)
    requires
        0 < centroids.len() <= usize::MAX,
    ensures
        nearest(math, metric, centroids, vector) < centroids.len(),
        forall|c: int|
            0 <= c < centroids.len() && c != nearest(math, metric, centroids, vector)
                ==> crate::ranking::precedes(
                centroid_neighbors(math, metric, centroids, vector)[nearest(
                    math,
                    metric,
                    centroids,
                    vector,
                ) as int].rank(),
                (#[trigger] centroid_neighbors(math, metric, centroids, vector)[c]).rank(),
            ),
{
    let items = centroid_neighbors(math, metric, centroids, vector);
    crate::ranking::least_is_the_minimum(items);
    let i = choose|i: int| 0 <= i < items.len() && items[i] == crate::ranking::least(items);
    assert(items[i].row == i);
}

/// The centroid nearest to `vector`, the first of them where several are.
pub fn nearest_centroid<M: VectorMath>(
    math: &M,
    vector: &[u32],
    centroids: &[Vec<u32>],
    metric: Metric,
) -> (cluster: usize)
    requires
        crate::math::lawful(math),
        centroids@.len() > 0,
    ensures
        cluster == nearest(math, metric, crate::dataset::contents(centroids@), vector@),
        cluster < centroids@.len(),
{
    let ghost items = centroid_neighbors(
        math,
        metric,
        crate::dataset::contents(centroids@),
        vector@,
    );
    let mut best = Neighbor {
        row: 0,
        distance: math.distance(metric, centroids[0].as_slice(), vector),
    };
    for c in 1..centroids.len()
        invariant
            crate::math::lawful(math),
            items == centroid_neighbors(
                math,
                metric,
                crate::dataset::contents(centroids@),
                vector@,
            ),
            best.row < c <= centroids@.len(),
            best == crate::ranking::least(items.take(c as int)),
    {
        let next = Neighbor {
            row: c,
            distance: math.distance(metric, centroids[c].as_slice(), vector),
        };
        assert(items[c as int] == next);
        assert(items.take(c + 1).drop_last() =~= items.take(c as int));
        if next.before(&best) {
            best = next;
        }
    }
    assert(items.take(items.len() as int) =~= items);
    best.row
}

/// For each vector its nearest centroid.
pub open spec fn assigned<M: VectorMath>(
    math: &M,
    metric: Metric,
    vectors: Seq<Seq<u32>>,
    centroids: Seq<Seq<u32>>,
) -> Seq<usize> {
    Seq::new(vectors.len(), |row: int| nearest(math, metric, centroids, vectors[row]))
}

/// Assigns each row of the dataset to its nearest centroid.
pub fn assign_rows<M: VectorMath>(
    math: &M,
    dataset: &Dataset,
    metric: Metric,
    centroids: &[Vec<u32>],
) -> (assignments: Vec<usize>)
    requires
        crate::math::lawful(math),
        centroids@.len() > 0,
    ensures
        assignments@ == assigned(
            math,
            metric,
            dataset@,
            crate::dataset::contents(centroids@),
        ),
        in_clusters(assignments@, centroids@.len()),
{
    let mut assignments: Vec<usize> = Vec::new();
    let rows: usize = dataset.len();
    for row in 0..rows
        invariant
            rows == dataset@.len(),
            crate::math::lawful(math),
            centroids@.len() > 0,
            assignments@ == assigned(
                math,
                metric,
                dataset@,
                crate::dataset::contents(centroids@),
            ).take(row as int),
            in_clusters(assignments@, centroids@.len()),
    {
        assignments.push(nearest_centroid(math, dataset.vector(row), centroids, metric));
        assert(assignments@ =~= assigned(
            math,
            metric,
            dataset@,
            crate::dataset::contents(centroids@),
        ).take(row + 1));
    }
    assert(assignments@ =~= assigned(
        math,
        metric,
        dataset@,
        crate::dataset::contents(centroids@),
    ));
    assignments
}

/// Whether every row is assigned to one of `partitions` clusters.
pub open spec fn in_clusters(assignments: Seq<usize>, partitions: nat) -> bool {
    forall|row: int| 0 <= row < assignments.len() ==> (#[trigger] assignments[row]) < partitions
}

/// The rows assigned to `cluster`, ascending.
pub open spec fn members(assignments: Seq<usize>, cluster: int) -> Seq<usize>
    decreases assignments.len(),
{
    if assignments.len() == 0 {
        Seq::empty()
    } else if assignments.last() == cluster {
        members(assignments.drop_last(), cluster).push((assignments.len() - 1) as usize)
    } else {
        members(assignments.drop_last(), cluster)
    }
}

/// The rows of each cluster.
pub open spec fn partition(assignments: Seq<usize>, partitions: nat) -> Seq<Seq<usize>> {
    Seq::new(partitions, |cluster: int| members(assignments, cluster))
}

/// Groups the rows by the cluster that they are assigned to.
pub fn lists_from_assignments(assignments: &[usize], partitions: usize) -> (lists: Vec<Vec<usize>>)
    requires
        in_clusters(assignments@, partitions as nat),
    ensures
        crate::dataset::contents(lists@) == partition(assignments@, partitions as nat),
{
    let mut lists: Vec<Vec<usize>> = Vec::new();
    for i in 0..partitions
        invariant
            lists@.len() == i,
            forall|c: int| 0 <= c < i ==> (#[trigger] lists@[c])@.len() == 0,
    {
        lists.push(Vec::new());
    }
    assert(crate::dataset::contents(lists@) =~~= partition(
        assignments@.take(0),
        partitions as nat,
    ));
    for row in 0..assignments.len()
        invariant
            in_clusters(assignments@, partitions as nat),
            lists@.len() == partitions,
            crate::dataset::contents(lists@) == partition(
                assignments@.take(row as int),
                partitions as nat,
            ),
    {
        let cluster: usize = assignments[row];
        let ghost before = crate::dataset::contents(lists@);
        let ghost so_far = assignments@.take(row as int);
        let ghost with_row = assignments@.take(row + 1);
        assert(with_row.drop_last() =~= so_far);
        assert(with_row.last() == cluster);
        lists[cluster].push(row);
        assert forall|c: int| 0 <= c < partitions implies #[trigger] crate::dataset::contents(
            lists@,
        )[c] == partition(with_row, partitions as nat)[c] by {
            assert(before[c] == members(so_far, c));
            if c != cluster {
                assert(lists@[c]@ == before[c]);
            } else {
                assert(lists@[c]@ == before[c].push(row));
            }
        }
        assert(crate::dataset::contents(lists@) =~= partition(with_row, partitions as nat));
    }
    assert(assignments@.take(assignments@.len() as int) =~= assignments@);
    lists
}

/// A cluster holds exactly the rows assigned to it, ascending, each once.
pub proof fn members_are_the_rows_assigned(assignments: Seq<usize>, cluster: int)
    requires
        assignments.len() <= usize::MAX,
    ensures
        forall|row: usize| #[trigger]
            members(assignments, cluster).contains(row) <==> row < assignments.len()
                && assignments[row as int] == cluster,
        forall|i: int, j: int|
            0 <= i < j < members(assignments, cluster).len() ==> #[trigger] members(
                assignments,
                cluster,
            )[i] < #[trigger] members(assignments, cluster)[j],
    decreases assignments.len(),
{
    if assignments.len() > 0 {
        let rest = assignments.drop_last();
        members_are_the_rows_assigned(rest, cluster);
        let last = (assignments.len() - 1) as usize;
        let before = members(rest, cluster);
        let after = members(assignments, cluster);
        crate::seqs::lemma_push_contains(before, last);
        assert forall|row: usize| #[trigger] after.contains(row) <==> row < assignments.len()
            && assignments[row as int] == cluster by {
            assert(before.contains(row) <==> row < rest.len() && rest[row as int] == cluster);
            if row < rest.len() {
                assert(rest[row as int] == assignments[row as int]);
            }
            assert(before.push(last).contains(row) <==> row == last || before.contains(row));
        }
        assert forall|i: int, j: int| 0 <= i < j < after.len() implies #[trigger] after[i]
            < #[trigger] after[j] by {
            if j < before.len() {
                assert(after[i] == before[i] && after[j] == before[j]);
            } else {
                assert(before.contains(before[i]));
            }
        }
    }
}

/// The component `i` of the vectors in the rows `list`.
pub open spec fn column(vectors: Seq<Seq<u32>>, list: Seq<usize>, i: int) -> Seq<u32> {
    Seq::new(list.len(), |j: int| vectors[list[j] as int][i])
}

/// The mean of the vectors in the rows `list`, component by component.
pub open spec fn mean_vector<M: VectorMath>(
    math: &M,
    vectors: Seq<Seq<u32>>,
    list: Seq<usize>,
    dimension: nat,
) -> Seq<u32> {
    Seq::new(dimension, |i: int| math.mean_of(column(vectors, list, i)))
}

/// The mean of the vectors in the rows `list`.
fn mean_of_rows<M: VectorMath>(math: &M, dataset: &Dataset, list: &[usize]) -> (mean: Vec<u32>)
    requires
        crate::math::lawful(math),
        dataset.wf(),
        forall|j: int| 0 <= j < list@.len() ==> (#[trigger] list@[j]) < dataset@.len(),
    ensures
        mean@ == mean_vector(math, dataset@, list@, dataset.width()),
{
    let mut mean: Vec<u32> = Vec::new();
    let dimension: usize = dataset.dimension();
    for i in 0..dimension
        invariant
            dimension == dataset.width(),
            crate::math::lawful(math),
            dataset.wf(),
            forall|j: int| 0 <= j < list@.len() ==> (#[trigger] list@[j]) < dataset@.len(),
            mean@ == mean_vector(math, dataset@, list@, dataset.width()).take(i as int),
    {
        let mut values: Vec<u32> = Vec::new();
        for j in 0..list.len()
            invariant
                dataset.wf(),
                i < dataset.width(),
                forall|h: int| 0 <= h < list@.len() ==> (#[trigger] list@[h]) < dataset@.len(),
                values@ == column(dataset@, list@, i as int).take(j as int),
        {
            assert(list@[j as int] < dataset@.len());
            assert(dataset@[list@[j as int] as int].len() == dataset.width());
            values.push(dataset.vector(list[j])[i]);
            assert(values@ =~= column(dataset@, list@, i as int).take(j + 1));
        }
        assert(values@ =~= column(dataset@, list@, i as int));
        mean.push(math.mean(values.as_slice()));
        assert(mean@ =~= mean_vector(math, dataset@, list@, dataset.width()).take(i + 1));
    }
    assert(mean@ =~= mean_vector(math, dataset@, list@, dataset.width()));
    mean
}

/// `vector` divided by its norm, unless that is zero.
pub open spec fn normalized<M: VectorMath>(math: &M, vector: Seq<u32>) -> Option<Seq<u32>> {
    let norm = math.norm_of(vector);
    if crate::bits::zero_64(norm) {
        None
    } else {
        Some(Seq::new(vector.len(), |i: int| math.quotient_of(vector[i], norm)))
    }
}

/// `vector` divided by its norm; where that is zero, `fallback` divided by its
/// norm; where that is zero too, `fallback`.
pub open spec fn normalized_or_replaced<M: VectorMath>(
    math: &M,
    vector: Seq<u32>,
    fallback: Seq<u32>,
) -> Seq<u32> {
    match normalized(math, vector) {
        Some(unit) => unit,
        None => match normalized(math, fallback) {
            Some(unit) => unit,
            None => fallback,
        },
    }
}

/// Divides `vector` by its norm, unless that is zero: then it is left alone.
pub fn l2_normalize<M: VectorMath>(math: &M, vector: &mut Vec<u32>) -> (done: bool)
    requires
        crate::math::lawful(math),
    ensures
        match normalized(math, old(vector)@) {
            Some(unit) => done && final(vector)@ == unit,
            None => !done && final(vector)@ == old(vector)@,
        },
        done <==> !crate::bits::zero_64(math.norm_of(old(vector)@)),
        done ==> crate::cluster_laws::is_scaled(math, old(vector)@, final(vector)@),
{
    let norm: u64 = math.norm(vector.as_slice());
    if is_zero_64(norm) {
        return false;
    }
    let ghost start = vector@;
    let dimension: usize = vector.len();
    for i in 0..dimension
        invariant
            crate::math::lawful(math),
            dimension == start.len(),
            vector@.len() == start.len(),
            forall|j: int|
                0 <= j < i ==> #[trigger] vector@[j] == math.quotient_of(start[j], norm),
            forall|j: int| i <= j < start.len() ==> #[trigger] vector@[j] == start[j],
    {
        let value: u32 = vector[i];
        let quotient: u32 = math.divide(value, norm);
        vector.set(i, quotient);
    }
    assert(vector@ =~= normalized(math, start).unwrap());
    true
}

/// Divides `centroid` by its norm, or puts `fallback` in its place where the
/// norm is zero, divided by its own norm.
pub fn normalize_or_replace<M: VectorMath>(math: &M, centroid: &mut Vec<u32>, fallback: &[u32])
    requires
        crate::math::lawful(math),
        old(centroid)@.len() == fallback@.len(),
    ensures
        final(centroid)@ == normalized_or_replaced(math, old(centroid)@, fallback@),
        final(centroid)@.len() == old(centroid)@.len(),
        crate::cluster_laws::is_fit(
            math,
            Metric::Cosine,
            old(centroid)@,
            fallback@,
            final(centroid)@,
        ),
{
    if l2_normalize(math, centroid) {
        return ;
    }
    *centroid = copied(fallback);
    let _ = l2_normalize(math, centroid);
}

/// Each row with its distance to its nearest centroid.
pub open spec fn spread<M: VectorMath>(
    math: &M,
    metric: Metric,
    vectors: Seq<Seq<u32>>,
    centroids: Seq<Seq<u32>>,
) -> Seq<Neighbor> {
    Seq::new(
        vectors.len(),
        |row: int|
            Neighbor {
                row: row as usize,
                distance: math.distance_of(
                    metric,
                    vectors[row],
                    centroids[nearest(math, metric, centroids, vectors[row]) as int],
                ),
            },
    )
}

/// The farthest of some items whose row is not skipped, the first of them where
/// several are.
pub open spec fn farthest(items: Seq<Neighbor>, skip: Seq<usize>) -> Option<Neighbor>
    decreases items.len(),
{
    if items.len() == 0 {
        None
    } else {
        let so_far = farthest(items.drop_last(), skip);
        let item = items.last();
        if skip.contains(item.row) {
            so_far
        } else {
            match so_far {
                None => Some(item),
                Some(best) => if crate::bits::order_32(best.distance) < crate::bits::order_32(
                    item.distance,
                ) {
                    Some(item)
                } else {
                    Some(best)
                },
            }
        }
    }
}

/// The farthest item is not skipped, none that is not skipped is farther, and
/// those as far stand behind it. There is one unless all are skipped.
pub proof fn farthest_is_the_farthest(items: Seq<Neighbor>, skip: Seq<usize>)
    ensures
        match farthest(items, skip) {
            Some(best) => {
                &&& items.contains(best)
                &&& !skip.contains(best.row)
                &&& forall|i: int|
                    0 <= i < items.len() && !skip.contains((#[trigger] items[i]).row)
                        ==> crate::bits::order_32(items[i].distance) <= crate::bits::order_32(
                        best.distance,
                    )
                &&& exists|b: int|
                    0 <= b < items.len() && items[b] == best && forall|i: int|
                        0 <= i < b && !skip.contains((#[trigger] items[i]).row)
                            ==> crate::bits::order_32(items[i].distance) < crate::bits::order_32(
                            best.distance,
                        )
            },
            None => forall|i: int|
                0 <= i < items.len() ==> skip.contains((#[trigger] items[i]).row),
        },
    decreases items.len(),
{
    if items.len() > 0 {
        let rest = items.drop_last();
        let item = items.last();
        farthest_is_the_farthest(rest, skip);
        assert(items[items.len() - 1] == item);
        assert forall|i: int| 0 <= i < rest.len() implies #[trigger] items[i] == rest[i] by {}
        match farthest(rest, skip) {
            Some(best) => {
                let b = choose|b: int|
                    0 <= b < rest.len() && rest[b] == best && forall|i: int|
                        0 <= i < b && !skip.contains((#[trigger] rest[i]).row)
                            ==> crate::bits::order_32(rest[i].distance) < crate::bits::order_32(
                            best.distance,
                        );
                assert(items[b] == best);
                if farthest(items, skip) == Some(item) && !skip.contains(item.row)
                    && crate::bits::order_32(best.distance) < crate::bits::order_32(item.distance) {
                    let last = items.len() - 1;
                    assert forall|i: int|
                        0 <= i < last && !skip.contains(
                            (#[trigger] items[i]).row,
                        ) implies crate::bits::order_32(items[i].distance)
                        < crate::bits::order_32(item.distance) by {
                        assert(rest[i] == items[i]);
                    }
                    assert(items[last] == item);
                } else {
                    assert(farthest(items, skip) == Some(best));
                    assert forall|i: int|
                        0 <= i < b && !skip.contains(
                            (#[trigger] items[i]).row,
                        ) implies crate::bits::order_32(items[i].distance)
                        < crate::bits::order_32(best.distance) by {
                        assert(rest[i] == items[i]);
                    }
                }
                assert forall|i: int|
                    0 <= i < items.len() && !skip.contains(
                        (#[trigger] items[i]).row,
                    ) implies crate::bits::order_32(items[i].distance) <= crate::bits::order_32(
                    farthest(items, skip).unwrap().distance,
                ) by {
                    if i < rest.len() {
                        assert(rest[i] == items[i]);
                    }
                }
            },
            None => {
                assert forall|i: int| 0 <= i < rest.len() implies skip.contains(
                    (#[trigger] items[i]).row,
                ) by {
                    assert(rest[i] == items[i]);
                }
            },
        }
    }
}

/// Fewer rows than there are cannot skip all of them.
pub proof fn lemma_some_row_is_left(skip: Seq<usize>, n: nat)
    requires
        skip.len() < n <= usize::MAX,
    ensures
        exists|row: usize| row < n && !skip.contains(row),
{
    let all = Set::new(|row: usize| row < n);
    vstd::set_lib::lemma_int_range(0, n as int);
    let ints = vstd::set_lib::set_int_range(0, n as int);
    assert(all.finite() && all.len() == n) by {
        let f = |i: int| i as usize;
        assert(vstd::relations::injective_on(f, ints));
        assert(ints.map(f) =~= all) by {
            assert forall|row: usize| all.contains(row) implies ints.map(f).contains(row) by {
                assert(ints.contains(row as int));
                assert(f(row as int) == row);
            }
        }
        vstd::set_lib::lemma_map_size(ints, all, f);
        ints.lemma_map_finite(f);
    }
    let skipped = skip.to_set();
    skip.lemma_cardinality_of_set();
    if forall|row: usize| row < n ==> skip.contains(row) {
        assert(all.subset_of(skipped)) by {
            assert forall|row: usize| all.contains(row) implies skipped.contains(row) by {
                assert(skip.contains(row));
            }
        }
        vstd::set_lib::lemma_len_subset(all, skipped);
        assert(false);
    }
}

/// The row farthest from its nearest centroid, of those not in `skip`.
pub fn farthest_row<M: VectorMath>(
    math: &M,
    dataset: &Dataset,
    metric: Metric,
    centroids: &[Vec<u32>],
    skip: &[usize],
) -> (row: usize)
    requires
        crate::math::lawful(math),
        centroids@.len() > 0,
        exists|row: usize| row < dataset@.len() && !skip@.contains(row),
    ensures
        row < dataset@.len(),
        Some(row) == farthest_unskipped(
            math,
            metric,
            dataset@,
            crate::dataset::contents(centroids@),
            skip@,
        ),
{
    let ghost old_centroids = crate::dataset::contents(centroids@);
    let ghost items = spread(math, metric, dataset@, old_centroids);
    let mut best: Option<Neighbor> = None;
    let rows: usize = dataset.len();
    for row in 0..rows
        invariant
            rows == dataset@.len(),
            crate::math::lawful(math),
            centroids@.len() > 0,
            old_centroids == crate::dataset::contents(centroids@),
            items == spread(math, metric, dataset@, old_centroids),
            best == farthest(items.take(row as int), skip@),
            best matches Some(neighbor) ==> neighbor.row < row,
    {
        assert(items.take(row + 1).drop_last() =~= items.take(row as int));
        if !holds(skip, row) {
            let vector = dataset.vector(row);
            let cluster: usize = nearest_centroid(math, vector, centroids, metric);
            let item = Neighbor {
                row,
                distance: math.distance(metric, vector, centroids[cluster].as_slice()),
            };
            assert(items[row as int] == item);
            best = match best {
                None => Some(item),
                Some(so_far) => {
                    let far: i64 = total_order_32(so_far.distance);
                    let here: i64 = total_order_32(item.distance);
                    if far < here {
                        Some(item)
                    } else {
                        Some(so_far)
                    }
                },
            };
        }
    }
    assert(items.take(items.len() as int) =~= items);
    proof {
        farthest_is_the_farthest(items, skip@);
        let row = choose|row: usize| row < dataset@.len() && !skip@.contains(row);
        assert(items[row as int].row == row);
    }
    match best {
        Some(neighbor) => neighbor.row,
        None => {
            assert(false);
            0
        },
    }
}

/// The row farthest from its nearest centroid, of those not in `skip`.
pub open spec fn farthest_unskipped<M: VectorMath>(
    math: &M,
    metric: Metric,
    vectors: Seq<Seq<u32>>,
    centroids: Seq<Seq<u32>>,
    skip: Seq<usize>,
) -> Option<usize> {
    match farthest(spread(math, metric, vectors, centroids), skip) {
        Some(neighbor) => Some(neighbor.row),
        None => None,
    }
}

/// A centroid brought to norm one where the metric takes angles.
pub open spec fn fitted<M: VectorMath>(
    math: &M,
    metric: Metric,
    centroid: Seq<u32>,
    fallback: Seq<u32>,
) -> Seq<u32> {
    if metric == Metric::Cosine {
        normalized_or_replaced(math, centroid, fallback)
    } else {
        centroid
    }
}

/// Centroids in the making, and the rows that empty clusters were moved to.
pub struct Update {
    /// The centroids, those updated so far first.
    pub centroids: Seq<Seq<u32>>,
    /// The rows that empty clusters were moved to.
    pub reseeds: Seq<usize>,
}

/// The centroids once the first `count` clusters are updated: a cluster moves
/// to the mean of its rows; an empty one to the row farthest from its nearest
/// former centroid that no other empty one was moved to.
pub open spec fn updated<M: VectorMath>(
    math: &M,
    metric: Metric,
    vectors: Seq<Seq<u32>>,
    dimension: nat,
    centroids: Seq<Seq<u32>>,
    lists: Seq<Seq<usize>>,
    count: nat,
) -> Update
    decreases count,
{
    if count == 0 {
        Update { centroids, reseeds: Seq::empty() }
    } else {
        let before = updated(
            math,
            metric,
            vectors,
            dimension,
            centroids,
            lists,
            (count - 1) as nat,
        );
        let list = lists[count - 1];
        if list.len() == 0 {
            let row = farthest_unskipped(
                math,
                metric,
                vectors,
                centroids,
                before.reseeds,
            ).unwrap();
            Update {
                centroids: before.centroids.update(
                    count - 1,
                    fitted(math, metric, vectors[row as int], vectors[row as int]),
                ),
                reseeds: before.reseeds.push(row),
            }
        } else {
            Update {
                centroids: before.centroids.update(
                    count - 1,
                    fitted(
                        math,
                        metric,
                        mean_vector(math, vectors, list, dimension),
                        vectors[list[0] as int],
                    ),
                ),
                reseeds: before.reseeds,
            }
        }
    }
}

/// Empty clusters are moved to rows of the dataset, no two of them to one row.
pub proof fn empty_clusters_take_distinct_rows<M: VectorMath>(
    math: &M,
    metric: Metric,
    vectors: Seq<Seq<u32>>,
    dimension: nat,
    centroids: Seq<Seq<u32>>,
    lists: Seq<Seq<usize>>,
    count: nat,
)
    requires
        count <= lists.len() <= vectors.len() <= usize::MAX,
    ensures
        ({
            let reseeds = updated(
                math,
                metric,
                vectors,
                dimension,
                centroids,
                lists,
                count,
            ).reseeds;
            &&& reseeds.len() <= count
            &&& reseeds.no_duplicates()
            &&& forall|i: int| 0 <= i < reseeds.len() ==> (#[trigger] reseeds[i]) < vectors.len()
        }),
    decreases count,
{
    if count > 0 {
        let less = (count - 1) as nat;
        empty_clusters_take_distinct_rows(
            math,
            metric,
            vectors,
            dimension,
            centroids,
            lists,
            less,
        );
        let before = updated(math, metric, vectors, dimension, centroids, lists, less).reseeds;
        if lists[count - 1].len() == 0 {
            let items = spread(math, metric, vectors, centroids);
            lemma_some_row_is_left(before, vectors.len());
            farthest_is_the_farthest(items, before);
            let left = choose|row: usize| row < vectors.len() && !before.contains(row);
            assert(items[left as int].row == left);
            let best = farthest(items, before).unwrap();
            let i = choose|i: int| 0 <= i < items.len() && items[i] == best;
            assert(items[i].row == i);
            let after = before.push(best.row);
            assert forall|a: int, b: int|
                0 <= a < after.len() && 0 <= b < after.len() && a != b implies after[a]
                != after[b] by {
                if a < before.len() && b < before.len() {
                    assert(before[a] != before[b]);
                } else if a < before.len() {
                    assert(before.contains(before[a]));
                } else {
                    assert(before.contains(before[b]));
                }
            }
        }
    }
}

/// Moves each centroid to the mean of its rows, and empty clusters to rows far
/// from all centroids.
pub fn update_centroids<M: VectorMath>(
    math: &M,
    dataset: &Dataset,
    metric: Metric,
    centroids: &mut Vec<Vec<u32>>,
    lists: &[Vec<usize>],
)
    requires
        crate::math::lawful(math),
        dataset.wf(),
        lists@.len() == old(centroids)@.len(),
        lists@.len() <= dataset@.len(),
        crate::dataset::uniform(
            crate::dataset::contents(old(centroids)@),
            dataset.width() as int,
        ),
        crate::links::in_range(crate::dataset::contents(lists@), dataset@.len()),
    ensures
        crate::dataset::contents(final(centroids)@) == updated(
            math,
            metric,
            dataset@,
            dataset.width(),
            crate::dataset::contents(old(centroids)@),
            crate::dataset::contents(lists@),
            lists@.len(),
        ).centroids,
        exists|means: Seq<Seq<u32>>, seeds: Seq<usize>| #[trigger]
            crate::cluster_laws::all_moved_by_lists(
                math,
                metric,
                dataset@,
                dataset.width(),
                crate::dataset::contents(old(centroids)@),
                crate::dataset::contents(final(centroids)@),
                crate::dataset::contents(lists@),
                means,
                seeds,
            ),
        final(centroids)@.len() == old(centroids)@.len(),
        crate::dataset::uniform(
            crate::dataset::contents(final(centroids)@),
            dataset.width() as int,
        ),
{
    let ghost start = crate::dataset::contents(centroids@);
    let ghost rows = crate::dataset::contents(lists@);
    let mut previous: Vec<Vec<u32>> = Vec::new();
    for c in 0..centroids.len()
        invariant
            start == crate::dataset::contents(centroids@),
            crate::dataset::contents(previous@) == start.take(c as int),
    {
        let ghost before = previous@;
        previous.push(copied(centroids[c].as_slice()));
        assert(crate::dataset::contents(before).len() == c);
        assert(crate::dataset::contents(previous@) =~= crate::dataset::contents(before).push(
            start[c as int],
        ));
        assert(crate::dataset::contents(previous@) =~= start.take(c + 1));
    }
    assert(crate::dataset::contents(previous@) =~= start);
    assert(previous@.len() == start.len()) by {
        assert(crate::dataset::contents(previous@).len() == start.len());
    }
    proof {
        crate::cluster_laws::lemma_moved_by_lists(
            math,
            metric,
            dataset@,
            dataset.width(),
            start,
            rows,
        );
    }
    let mut reseeds: Vec<usize> = Vec::new();
    for cluster in 0..lists.len()
        invariant
            crate::math::lawful(math),
            dataset.wf(),
            start == crate::dataset::contents(previous@),
            previous@.len() == start.len(),
            lists@.len() == start.len(),
            lists@.len() <= dataset@.len(),
            rows == crate::dataset::contents(lists@),
            crate::links::in_range(rows, dataset@.len()),
            centroids@.len() == start.len(),
            reseeds@.len() <= cluster,
            crate::dataset::uniform(
                crate::dataset::contents(centroids@),
                dataset.width() as int,
            ),
            (Update {
                centroids: crate::dataset::contents(centroids@),
                reseeds: reseeds@,
            }) == updated(
                math,
                metric,
                dataset@,
                dataset.width(),
                start,
                rows,
                cluster as nat,
            ),
    {
        let list = &lists[cluster];
        assert(list@ == rows[cluster as int]);
        let ghost before = crate::dataset::contents(centroids@);
        if list.len() == 0 {
            proof {
                lemma_some_row_is_left(reseeds@, dataset@.len());
            }
            let row: usize = farthest_row(
                math,
                dataset,
                metric,
                previous.as_slice(),
                reseeds.as_slice(),
            );
            reseeds.push(row);
            let mut centroid = copied(dataset.vector(row));
            assert(dataset@[row as int].len() == dataset.width());
            if metric == Metric::Cosine {
                normalize_or_replace(math, &mut centroid, dataset.vector(row));
            }
            let ghost moved = centroid@;
            centroids.set(cluster, centroid);
            assert(crate::dataset::contents(centroids@) =~= before.update(
                cluster as int,
                moved,
            ));
        } else {
            assert forall|j: int| 0 <= j < list@.len() implies (#[trigger] list@[j])
                < dataset@.len() by {
                assert(rows[cluster as int][j] < dataset@.len());
            }
            let mut centroid = mean_of_rows(math, dataset, list.as_slice());
            assert(list@[0] < dataset@.len());
            assert(dataset@[list@[0] as int].len() == dataset.width());
            if metric == Metric::Cosine {
                normalize_or_replace(math, &mut centroid, dataset.vector(list[0]));
            }
            let ghost moved = centroid@;
            centroids.set(cluster, centroid);
            assert(crate::dataset::contents(centroids@) =~= before.update(
                cluster as int,
                moved,
            ));
        }
    }
}

} // verus!
