//! How an inverted file shares out its rows, and what a search of it finds.

use vstd::prelude::*;

use crate::dataset::Dataset;
use crate::index::VectorIndex;
use crate::ivf::{train_centroids, IvfFlatConfig, IvfFlatIndex};
use crate::math::VectorMath;
use crate::ranking::Ranked;
use crate::types::{Metric, Neighbor, VectorError};

verus! {

proof fn lemma_total_of_partition(assignments: Seq<usize>, partitions: nat)
    requires
        crate::clusters::in_clusters(assignments, partitions),
    ensures
        crate::seqs::total(crate::clusters::partition(assignments, partitions))
            == assignments.len(),
    decreases assignments.len(),
{
    let groups = crate::clusters::partition(assignments, partitions);
    if assignments.len() == 0 {
        assert forall|c: int| 0 <= c < groups.len() implies (#[trigger] groups[c]).len() == 0 by {}
        lemma_total_of_empty(groups);
    } else {
        let rest = assignments.drop_last();
        let last = assignments.last();
        assert(assignments[assignments.len() - 1] == last);
        assert forall|row: int| 0 <= row < rest.len() implies (#[trigger] rest[row])
            < partitions by {
            assert(rest[row] == assignments[row]);
        }
        lemma_total_of_partition(rest, partitions);
        let before = crate::clusters::partition(rest, partitions);
        assert(groups =~= before.update(
            last as int,
            before[last as int].push((assignments.len() - 1) as usize),
        ));
        lemma_total_of_update(before, last as int, groups[last as int]);
    }
}

proof fn lemma_total_of_empty(groups: Seq<Seq<usize>>)
    requires
        forall|c: int| 0 <= c < groups.len() ==> (#[trigger] groups[c]).len() == 0,
    ensures
        crate::seqs::total(groups) == 0,
    decreases groups.len(),
{
    if groups.len() > 0 {
        let rest = groups.drop_last();
        assert forall|c: int| 0 <= c < rest.len() implies (#[trigger] rest[c]).len() == 0 by {
            assert(rest[c] == groups[c]);
        }
        lemma_total_of_empty(rest);
        assert(groups[groups.len() - 1].len() == 0);
    }
}

proof fn lemma_total_of_update(groups: Seq<Seq<usize>>, c: int, group: Seq<usize>)
    requires
        0 <= c < groups.len(),
    ensures
        crate::seqs::total(groups.update(c, group)) == crate::seqs::total(groups)
            - groups[c].len() + group.len(),
    decreases groups.len(),
{
    let after = groups.update(c, group);
    if c == groups.len() - 1 {
        assert(after.drop_last() =~= groups.drop_last());
    } else {
        assert(after.drop_last() =~= groups.drop_last().update(c, group));
        lemma_total_of_update(groups.drop_last(), c, group);
    }
}

/// The sizes of groups that share out the rows add up to the number of rows.
pub proof fn sizes_add_up(groups: Seq<Seq<usize>>, rows: nat)
    requires
        crate::ivf::shares_out(groups, rows),
    ensures
        crate::seqs::total(groups) == rows,
{
    let assignments = choose|assignments: Seq<usize>|
        #[trigger] crate::ivf::made_by(groups, rows, assignments);
    lemma_total_of_partition(assignments, groups.len());
}

/// Where groups share out the rows, every row stands in one of them, and in no
/// other.
pub proof fn every_row_is_in_one_group(groups: Seq<Seq<usize>>, rows: nat, row: usize)
    requires
        crate::ivf::shares_out(groups, rows),
        row < rows <= usize::MAX,
    ensures
        exists|c: int|
            0 <= c < groups.len() && (#[trigger] groups[c]).contains(row) && forall|d: int|
                0 <= d < groups.len() && (#[trigger] groups[d]).contains(row) ==> d == c,
{
    let assignments = choose|assignments: Seq<usize>|
        #[trigger] crate::ivf::made_by(groups, rows, assignments);
    let c = assignments[row as int] as int;
    assert forall|d: int| 0 <= d < groups.len() implies ((#[trigger] groups[d]).contains(row)
        <==> d == c) by {
        crate::clusters::members_are_the_rows_assigned(assignments, d);
        assert(groups[d] == crate::clusters::members(assignments, d));
    }
    assert(groups[c].contains(row));
}

/// In the groups of the assignment to nearest centroids, a row stands with the
/// centroid nearest to it.
pub proof fn rows_stand_with_their_nearest_centroid<M: VectorMath>(
    math: &M,
    metric: Metric,
    vectors: Seq<Seq<u32>>,
    centroids: Seq<Seq<u32>>,
    row: usize,
    c: int,
)
    requires
        row < vectors.len() <= usize::MAX,
        0 <= c < centroids.len(),
    ensures
        crate::clusters::partition(
            crate::clusters::assigned(math, metric, vectors, centroids),
            centroids.len(),
        )[c].contains(row) <==> c == crate::clusters::nearest(
            math,
            metric,
            centroids,
            vectors[row as int],
        ),
{
    let assignments = crate::clusters::assigned(math, metric, vectors, centroids);
    crate::clusters::members_are_the_rows_assigned(assignments, c);
}

/// The rows of distinct groups that share out all rows: each once, and those
/// whose group is named.
pub proof fn lemma_listed(
    order: Seq<usize>,
    groups: Seq<Seq<usize>>,
    assignments: Seq<usize>,
)
    requires
        crate::ivf::made_by(groups, assignments.len(), assignments),
        assignments.len() <= usize::MAX,
        order.no_duplicates(),
        forall|i: int| 0 <= i < order.len() ==> (#[trigger] order[i]) < groups.len(),
    ensures
        crate::ivf::listed(order, groups).no_duplicates(),
        forall|row: usize| #[trigger]
            crate::ivf::listed(order, groups).contains(row) <==> row < assignments.len()
                && order.contains(assignments[row as int]),
    decreases order.len(),
{
    if order.len() > 0 {
        let rest = order.drop_last();
        let last = order.last();
        assert(order[order.len() - 1] == last);
        assert forall|i: int| 0 <= i < rest.len() implies #[trigger] rest[i] == order[i] by {}
        crate::seqs::lemma_drop_last_contains(order);
        lemma_listed(rest, groups, assignments);
        let before = crate::ivf::listed(rest, groups);
        let group = groups[last as int];
        let after = crate::ivf::listed(order, groups);
        assert(after == before + group);
        crate::clusters::members_are_the_rows_assigned(assignments, last as int);
        assert(group == crate::clusters::members(assignments, last as int));
        crate::seqs::lemma_concat_contains(before, group);
        assert forall|row: usize| #[trigger] after.contains(row) <==> row < assignments.len()
            && order.contains(assignments[row as int]) by {
            assert((before + group).contains(row) <==> before.contains(row) || group.contains(
                row,
            ));
            assert(before.contains(row) <==> row < assignments.len() && rest.contains(
                assignments[row as int],
            ));
        }
        assert forall|i: int, j: int|
            0 <= i < after.len() && 0 <= j < after.len() && i != j implies after[i]
            != after[j] by {
            let n = before.len() as int;
            if i < n && j < n {
                assert(before[i] != before[j]);
            } else if i >= n && j >= n {
                assert(after[i] == group[i - n] && after[j] == group[j - n]);
                if i < j {
                    assert(group[i - n] < group[j - n]);
                } else {
                    assert(group[j - n] < group[i - n]);
                }
            } else {
                let (inside, outside) = if i < n {
                    (i, j)
                } else {
                    (j, i)
                };
                assert(before.contains(before[inside]));
                assert(group.contains(group[outside - n]));
                if after[i] == after[j] {
                    assert(rest.contains(last));
                    let h = choose|h: int| 0 <= h < rest.len() && rest[h] == last;
                    assert(order[h] != order[order.len() - 1]);
                }
            }
        }
    }
}

/// Whether the row of each item is its place.
pub open spec fn numbered<T: Ranked>(items: Seq<T>) -> bool {
    forall|i: int| 0 <= i < items.len() ==> (#[trigger] items[i]).rank().1 == i
}

/// The smallest of numbered items have distinct rows in range, and all rows
/// where none is left out.
pub proof fn lemma_numbered<T: Ranked>(items: Seq<T>, k: nat)
    requires
        numbered(items),
        k <= items.len(),
    ensures
        ({
            let ranked = crate::ranking::smallest(items, k);
            &&& ranked.len() == k
            &&& forall|i: int, j: int|
                0 <= i < ranked.len() && 0 <= j < ranked.len() && i != j ==> (
                #[trigger] ranked[i]).rank().1 != (#[trigger] ranked[j]).rank().1
            &&& forall|i: int|
                0 <= i < ranked.len() ==> 0 <= (#[trigger] ranked[i]).rank().1 < items.len()
            &&& k == items.len() ==> forall|c: int|
                0 <= c < items.len() ==> ranked.contains(#[trigger] items[c])
        }),
{
    broadcast use vstd::seq_lib::group_to_multiset_ensures;

    let order = crate::ranking::ascending(items);
    let ranked = crate::ranking::smallest(items, k);
    crate::ranking::ascending_sorts(items);
    assert(items.no_duplicates()) by {
        assert forall|i: int, j: int|
            0 <= i < items.len() && 0 <= j < items.len() && i != j implies items[i]
            != items[j] by {
            assert(items[i].rank().1 == i && items[j].rank().1 == j);
        }
    }
    items.lemma_multiset_has_no_duplicates();
    order.lemma_multiset_has_no_duplicates_conv();
    assert forall|i: int| 0 <= i < ranked.len() implies #[trigger] ranked[i] == order[i] by {}
    assert forall|i: int| 0 <= i < order.len() implies 0 <= (#[trigger] order[i]).rank().1
        < items.len() && items[order[i].rank().1] == order[i] by {
        assert(order.contains(order[i]));
        assert(items.contains(order[i]));
        let j = choose|j: int| 0 <= j < items.len() && items[j] == order[i];
        assert(items[j].rank().1 == j);
    }
    assert forall|i: int, j: int|
        0 <= i < ranked.len() && 0 <= j < ranked.len() && i != j implies (
    #[trigger] ranked[i]).rank().1 != (#[trigger] ranked[j]).rank().1 by {
        assert(order[i] != order[j]);
        assert(items[order[i].rank().1] == order[i]);
        assert(items[order[j].rank().1] == order[j]);
    }
    assert forall|i: int| 0 <= i < ranked.len() implies 0 <= (#[trigger] ranked[i]).rank().1
        < items.len() by {
        assert(0 <= order[i].rank().1 < items.len());
    }
    if k == items.len() {
        assert forall|c: int| 0 <= c < items.len() implies ranked.contains(
            #[trigger] items[c],
        ) by {
            assert(items.contains(items[c]));
            assert(order.contains(items[c]));
        }
    }
}

/// The rows of the smallest of numbered items are distinct and in range, and
/// all rows where none is left out.
pub proof fn lemma_rows_of_numbered<T: Ranked>(items: Seq<T>, k: nat, order: Seq<usize>)
    requires
        numbered(items),
        k <= items.len() <= usize::MAX,
        order.len() == crate::ranking::smallest(items, k).len(),
        forall|i: int|
            0 <= i < order.len() ==> (#[trigger] order[i]) == crate::ranking::smallest(
                items,
                k,
            )[i].rank().1,
    ensures
        order.no_duplicates(),
        forall|i: int| 0 <= i < order.len() ==> (#[trigger] order[i]) < items.len(),
        k == items.len() ==> forall|c: usize|
            c < items.len() ==> #[trigger] order.contains(c),
{
    let ranked = crate::ranking::smallest(items, k);
    lemma_numbered(items, k);
    assert forall|i: int| 0 <= i < order.len() implies (#[trigger] order[i]) < items.len() by {
        assert(ranked[i].rank().1 < items.len());
    }
    assert forall|i: int, j: int|
        0 <= i < order.len() && 0 <= j < order.len() && i != j implies order[i] != order[j] by {
        assert(ranked[i].rank().1 != ranked[j].rank().1);
    }
    if k == items.len() {
        assert forall|c: usize| c < items.len() implies #[trigger] order.contains(c) by {
            assert(ranked.contains(items[c as int]));
            let i = choose|i: int| 0 <= i < ranked.len() && ranked[i] == items[c as int];
            assert(items[c as int].rank().1 == c);
            assert(order[i] == c);
        }
    }
}

/// The rows of groups that share out all rows, with all groups named: every row
/// once.
pub proof fn lemma_all_listed(order: Seq<usize>, groups: Seq<Seq<usize>>, rows: nat)
    requires
        crate::ivf::shares_out(groups, rows),
        rows <= usize::MAX,
        order.no_duplicates(),
        forall|i: int| 0 <= i < order.len() ==> (#[trigger] order[i]) < groups.len(),
        forall|c: usize| c < groups.len() ==> #[trigger] order.contains(c),
    ensures
        crate::ivf::listed(order, groups).no_duplicates(),
        forall|row: usize| #[trigger]
            crate::ivf::listed(order, groups).contains(row) <==> row < rows,
{
    let assignments = choose|assignments: Seq<usize>|
        #[trigger] crate::ivf::made_by(groups, rows, assignments);
    lemma_listed(order, groups, assignments);
    assert forall|row: usize| #[trigger] crate::ivf::listed(order, groups).contains(row) <==> row
        < rows by {
        if row < rows {
            assert(order.contains(assignments[row as int]));
        }
    }
}

/// Distinct rows as neighbours: distinct, and each the neighbour of its row.
pub proof fn lemma_as_neighbors(near: spec_fn(usize) -> Neighbor, rows: Seq<usize>)
    requires
        forall|row: usize| (#[trigger] near(row)).row == row,
        rows.no_duplicates(),
    ensures
        crate::ivf::as_neighbors(near, rows).no_duplicates(),
        forall|x: Neighbor| #[trigger]
            crate::ivf::as_neighbors(near, rows).contains(x) <==> rows.contains(x.row) && x == near(
                x.row,
            ),
{
    let all = crate::ivf::as_neighbors(near, rows);
    assert forall|i: int, j: int|
        0 <= i < all.len() && 0 <= j < all.len() && i != j implies all[i] != all[j] by {
        assert(all[i].row == rows[i] && all[j].row == rows[j]);
    }
    assert forall|x: Neighbor| #[trigger] all.contains(x) <==> rows.contains(x.row) && x == near(
        x.row,
    ) by {
        if all.contains(x) {
            let i = choose|i: int| 0 <= i < all.len() && all[i] == x;
            assert(rows[i] == x.row);
        }
        if rows.contains(x.row) && x == near(x.row) {
            let i = choose|i: int| 0 <= i < rows.len() && rows[i] == x.row;
            assert(all[i] == x);
        }
    }
}

pub proof fn lemma_identity(n: nat)
    requires
        n <= usize::MAX,
    ensures
        crate::shuffle::identity(n).no_duplicates(),
        forall|row: usize| #[trigger] crate::shuffle::identity(n).contains(row) <==> row < n,
{
    let all = crate::shuffle::identity(n);
    assert forall|row: usize| #[trigger] all.contains(row) <==> row < n by {
        if row < n {
            assert(all[row as int] == row);
        }
        if all.contains(row) {
            let i = choose|i: int| 0 <= i < all.len() && all[i] == row;
        }
    }
}

/// A search that looks at all groups is exhaustive: it finds the `k` nearest of
/// all rows.
pub proof fn probing_all_groups_is_exhaustive<M: VectorMath>(
    math: &M,
    index: &IvfFlatIndex,
    query: Seq<u32>,
    k: nat,
)
    requires
        index.wf(),
    ensures
        crate::ranking::smallest(
            crate::ivf::as_neighbors(
                index.near(math, query),
                index.probed(math, query, index.settings().partitions as nat),
            ),
            k,
        ) == crate::ranking::smallest(
            crate::ivf::as_neighbors(
                index.near(math, query),
                crate::shuffle::identity(index.data()@.len()),
            ),
            k,
        ),
{
    let rows = index.data()@.len();
    let probes = index.settings().partitions as nat;
    lemma_rows_of_numbered(
        crate::clusters::centroid_neighbors(math, index.measure(), index.centers(), query),
        probes,
        index.probed_groups(math, query, probes),
    );
    lemma_all_listed(index.probed_groups(math, query, probes), index.groups(), rows);
    lemma_identity(rows);
    let near = index.near(math, query);
    let probed = index.probed(math, query, probes);
    let all = crate::shuffle::identity(rows);
    lemma_as_neighbors(near, probed);
    lemma_as_neighbors(near, all);
    assert forall|x: Neighbor| #[trigger] crate::ivf::as_neighbors(near, probed).contains(x)
        <==> crate::ivf::as_neighbors(near, all).contains(x) by {
        assert(probed.contains(x.row) <==> all.contains(x.row));
    }
    crate::ranking::lemma_same_items_same_order(
        crate::ivf::as_neighbors(near, probed),
        crate::ivf::as_neighbors(near, all),
    );
}

/// A search finds rows of the dataset with their true distances, each once,
/// nearest first, at most `k`, and as many as it looked at where these are
/// fewer.
pub proof fn probing_finds_true_neighbors<M: VectorMath>(
    math: &M,
    index: &IvfFlatIndex,
    query: Seq<u32>,
    k: nat,
    probes: nat,
)
    requires
        index.wf(),
        probes <= index.settings().partitions,
    ensures
        ({
            let probed = index.probed(math, query, probes);
            let near = index.near(math, query);
            let found = crate::ranking::smallest(crate::ivf::as_neighbors(near, probed), k);
            &&& crate::ranking::ascends(found)
            &&& found.no_duplicates()
            &&& found.len() == crate::seqs::min(k, probed.len())
            &&& forall|x: Neighbor| #[trigger]
                found.contains(x) ==> x.row < index.data()@.len() && x == near(x.row)
                    && probed.contains(x.row)
        }),
{
    let rows = index.data()@.len();
    let assignments = choose|assignments: Seq<usize>|
        #[trigger] crate::ivf::made_by(index.groups(), rows, assignments);
    lemma_rows_of_numbered(
        crate::clusters::centroid_neighbors(math, index.measure(), index.centers(), query),
        probes,
        index.probed_groups(math, query, probes),
    );
    lemma_listed(index.probed_groups(math, query, probes), index.groups(), assignments);
    let probed = index.probed(math, query, probes);
    let near = index.near(math, query);
    let items = crate::ivf::as_neighbors(near, probed);
    lemma_as_neighbors(near, probed);
    crate::ranking::lemma_smallest_of_distinct(items, k);
}

/// A search that looks at more groups loses a row only to nearer ones: a row
/// found before is missing only if `k` rows are found that are all nearer.
pub proof fn probing_more_groups_finds_nearer_rows<M: VectorMath>(
    math: &M,
    index: &IvfFlatIndex,
    query: Seq<u32>,
    k: nat,
    probes: nat,
    more: nat,
    lost: Neighbor,
)
    requires
        index.wf(),
        probes <= more <= index.settings().partitions,
        crate::ranking::smallest(
            crate::ivf::as_neighbors(
                index.near(math, query),
                index.probed(math, query, probes),
            ),
            k,
        ).contains(lost),
        !crate::ranking::smallest(
            crate::ivf::as_neighbors(index.near(math, query), index.probed(math, query, more)),
            k,
        ).contains(lost),
    ensures
        ({
            let found = crate::ranking::smallest(
                crate::ivf::as_neighbors(
                    index.near(math, query),
                    index.probed(math, query, more),
                ),
                k,
            );
            &&& found.len() == k
            &&& forall|i: int|
                0 <= i < k ==> crate::ranking::precedes(
                    (#[trigger] found[i]).rank(),
                    lost.rank(),
                )
        }),
{
    let rows = index.data()@.len();
    let near = index.near(math, query);
    let groups = index.groups();
    let assignments = choose|assignments: Seq<usize>|
        #[trigger] crate::ivf::made_by(groups, rows, assignments);
    let few_groups = index.probed_groups(math, query, probes);
    let more_groups = index.probed_groups(math, query, more);
    lemma_rows_of_numbered(
        crate::clusters::centroid_neighbors(math, index.measure(), index.centers(), query),
        probes,
        index.probed_groups(math, query, probes),
    );
    lemma_rows_of_numbered(
        crate::clusters::centroid_neighbors(math, index.measure(), index.centers(), query),
        more,
        index.probed_groups(math, query, more),
    );
    lemma_listed(few_groups, groups, assignments);
    lemma_listed(more_groups, groups, assignments);
    let few = index.probed(math, query, probes);
    let many = index.probed(math, query, more);
    lemma_as_neighbors(near, few);
    lemma_as_neighbors(near, many);
    crate::ranking::lemma_smallest_of_distinct(crate::ivf::as_neighbors(near, few), k);
    assert(few.contains(lost.row));
    let group = assignments[lost.row as int];
    assert(few_groups.contains(group));
    let i = choose|i: int| 0 <= i < few_groups.len() && few_groups[i] == group;
    assert(more_groups[i] == group);
    assert(many.contains(lost.row));
    crate::ranking::lemma_left_out(crate::ivf::as_neighbors(near, many), k, lost);
}

/// Whether `order` are the first `few` of `count` by `key`, in this order.
pub open spec fn soonest(
    key: spec_fn(usize) -> int,
    count: nat,
    few: nat,
    order: Seq<usize>,
) -> bool {
    &&& order.len() == few
    &&& forall|i: int| 0 <= i < order.len() ==> (#[trigger] order[i]) < count
    &&& forall|i: int, j: int|
        0 <= i < j < order.len() ==> crate::cluster_laws::sooner(
            key,
            #[trigger] order[i],
            #[trigger] order[j],
        )
    &&& forall|c: usize, i: int|
        c < count && !(#[trigger] order.contains(c)) && 0 <= i < order.len()
            ==> crate::cluster_laws::sooner(key, #[trigger] order[i], c)
}

/// Whether `row` stands in a group that `order` names.
pub open spec fn in_named_group(groups: Seq<Seq<usize>>, order: Seq<usize>, row: usize) -> bool {
    exists|i: int| 0 <= i < order.len() && groups[#[trigger] order[i] as int].contains(row)
}

/// Whether `found` are the nearest rows of the groups that `order` names, at
/// most `limit`: each in such a group, with its distance, nearest first, and
/// each row of these groups found or beaten by `limit` rows.
pub open spec fn nearest_of_groups(
    dist: spec_fn(usize) -> u32,
    groups: Seq<Seq<usize>>,
    order: Seq<usize>,
    limit: nat,
    found: Seq<Neighbor>,
) -> bool {
    &&& crate::graph_laws::nearest_ranked(dist, found)
    &&& found.len() <= limit
    &&& forall|i: int|
        0 <= i < found.len() ==> in_named_group(groups, order, (#[trigger] found[i]).row)
    &&& forall|row: usize|
        in_named_group(groups, order, row) ==> #[trigger] crate::graph_laws::found_or_beaten(
            dist,
            found,
            limit,
            row,
        )
}

/// Whether a search looked at the right groups and found the right rows of them:
/// the `probes` groups whose centroids are nearest to the query, and of their
/// rows the nearest `k`, or as many as there are rows in all.
pub open spec fn probed_rightly<M: VectorMath>(
    math: &M,
    index: &IvfFlatIndex,
    query: Seq<u32>,
    k: nat,
    probes: nat,
    order: Seq<usize>,
    found: Seq<Neighbor>,
) -> bool {
    let rows = index.data()@.len();
    &&& soonest(
        |c: usize|
            crate::bits::order_32(
                math.distance_of(index.measure(), index.centers()[c as int], query),
            ),
        index.centers().len(),
        probes,
        order,
    )
    &&& nearest_of_groups(
        |row: usize| math.distance_of(index.measure(), index.data()@[row as int], query),
        index.groups(),
        order,
        if k < rows {
            k
        } else {
            rows
        },
        found,
    )
}

/// The smallest of numbered items are the first by their keys.
pub proof fn lemma_soonest<T: Ranked>(
    items: Seq<T>,
    k: nat,
    key: spec_fn(usize) -> int,
    order: Seq<usize>,
)
    requires
        numbered(items),
        k <= items.len() <= usize::MAX,
        order.len() == crate::ranking::smallest(items, k).len(),
        forall|i: int|
            0 <= i < order.len() ==> (#[trigger] order[i]) == crate::ranking::smallest(
                items,
                k,
            )[i].rank().1,
        forall|c: int| 0 <= c < items.len() ==> (#[trigger] items[c]).rank().0 == key(c as usize),
    ensures
        soonest(key, items.len(), k, order),
{
    let ranked = crate::ranking::smallest(items, k);
    lemma_rows_of_numbered(items, k, order);
    assert(items.no_duplicates()) by {
        assert forall|i: int, j: int|
            0 <= i < items.len() && 0 <= j < items.len() && i != j implies items[i]
            != items[j] by {
            assert(items[i].rank().1 == i && items[j].rank().1 == j);
        }
    }
    crate::ranking::lemma_smallest_of_distinct(items, k);
    assert forall|i: int| 0 <= i < order.len() implies #[trigger] ranked[i]
        == items[order[i] as int] && ranked[i].rank().0 == key(order[i]) by {
        assert(ranked.contains(ranked[i]));
        let c = choose|c: int| 0 <= c < items.len() && items[c] == ranked[i];
        assert(items[c].rank().1 == c);
        assert(order[i] == c);
    }
    assert forall|i: int, j: int|
        0 <= i < j < order.len() implies crate::cluster_laws::sooner(
        key,
        #[trigger] order[i],
        #[trigger] order[j],
    ) by {
        assert(!crate::ranking::precedes(ranked[j].rank(), ranked[i].rank()));
        assert(order[i] != order[j]);
        assert(ranked[i].rank().0 == key(order[i]));
        assert(ranked[j].rank().0 == key(order[j]));
    }
    assert forall|c: usize, i: int|
        c < items.len() && !(#[trigger] order.contains(c)) && 0 <= i
            < order.len() implies crate::cluster_laws::sooner(key, #[trigger] order[i], c) by {
        let item = items[c as int];
        assert(item.rank().1 == c);
        if ranked.contains(item) {
            let j = choose|j: int| 0 <= j < ranked.len() && ranked[j] == item;
            assert(order[j] == c);
        }
        crate::ranking::lemma_left_out(items, k, item);
        assert(crate::ranking::precedes(ranked[i].rank(), item.rank()));
    }
}

/// The rows listed of the groups that `order` names are those that stand in one
/// of them.
pub proof fn lemma_in_named_group(
    order: Seq<usize>,
    groups: Seq<Seq<usize>>,
    assignments: Seq<usize>,
)
    requires
        crate::ivf::made_by(groups, assignments.len(), assignments),
        assignments.len() <= usize::MAX,
        order.no_duplicates(),
        forall|i: int| 0 <= i < order.len() ==> (#[trigger] order[i]) < groups.len(),
    ensures
        crate::ivf::listed(order, groups).no_duplicates(),
        forall|row: usize| #[trigger]
            crate::ivf::listed(order, groups).contains(row) <==> in_named_group(
                groups,
                order,
                row,
            ),
        forall|row: usize| #[trigger]
            in_named_group(groups, order, row) ==> row < assignments.len(),
{
    lemma_listed(order, groups, assignments);
    assert forall|row: usize|
        in_named_group(groups, order, row) <==> #[trigger] crate::ivf::listed(
            order,
            groups,
        ).contains(row) by {
        assert forall|i: int| 0 <= i < order.len() implies (groups[
            #[trigger] order[i] as int
        ].contains(row) <==> row < assignments.len() && assignments[row as int] == order[i]) by {
            crate::clusters::members_are_the_rows_assigned(assignments, order[i] as int);
        }
        if row < assignments.len() && order.contains(assignments[row as int]) {
            let i = choose|i: int| 0 <= i < order.len() && order[i] == assignments[row as int];
            assert(groups[order[i] as int].contains(row));
        }
    }
    assert forall|row: usize| #[trigger] in_named_group(groups, order, row) implies row
        < assignments.len() by {
        assert(crate::ivf::listed(order, groups).contains(row));
    }
}

/// An index is built over the centroids that training gives, and each of its
/// groups is the rows that pick its centroid.
pub proof fn building_groups_rows_by_the_nearest_centroid<M: VectorMath>(
    math: &M,
    dataset: Dataset,
    metric: Metric,
    config: IvfFlatConfig,
    draws: &[usize],
    centroids: Vec<Vec<u32>>,
    index: IvfFlatIndex,
)
    requires
        call_ensures(
            IvfFlatIndex::try_new::<M>,
            (math, dataset, metric, config, draws),
            Ok(index),
        ),
        call_ensures(
            train_centroids::<M>,
            (math, &dataset, metric, config.partitions, config.iterations, draws),
            centroids,
        ),
    ensures
        index.data() == dataset,
        index.measure() == metric,
        index.settings() == config,
        index.centers() == crate::dataset::contents(centroids@),
        index.groups().len() == config.partitions,
        forall|c: usize|
            c < config.partitions ==> crate::cluster_laws::picked_by(
                crate::cluster_laws::centroid_key(math, metric, dataset@, index.centers()),
                dataset@.len(),
                config.partitions as nat,
                c,
                #[trigger] index.groups()[c as int],
            ),
{
    assert forall|c: usize| c < config.partitions implies crate::cluster_laws::picked_by(
        crate::cluster_laws::centroid_key(math, metric, dataset@, index.centers()),
        dataset@.len(),
        config.partitions as nat,
        c,
        #[trigger] index.groups()[c as int],
    ) by {
        crate::cluster_laws::lemma_picked_by(math, metric, dataset@, index.centers(), c);
    }
}

proof fn lemma_probed_rightly<M: VectorMath>(
    math: &M,
    index: &IvfFlatIndex,
    query: Seq<u32>,
    k: usize,
    probes: usize,
    found: Vec<Neighbor>,
)
    requires
        index.wf(),
        index.search_answer(math, query, k, probes, Ok(found)),
    ensures
        1 <= probes <= index.centers().len(),
        exists|order: Seq<usize>| #[trigger]
            probed_rightly(math, index, query, k as nat, probes as nat, order, found@),
{
    let rows = index.data()@.len();
    let groups = index.groups();
    let items = crate::clusters::centroid_neighbors(
        math,
        index.measure(),
        index.centers(),
        query,
    );
    let order = index.probed_groups(math, query, probes as nat);
    let assignments = choose|assignments: Seq<usize>|
        #[trigger] crate::ivf::made_by(groups, rows, assignments);
    let key = |c: usize|
        crate::bits::order_32(
            math.distance_of(index.measure(), index.centers()[c as int], query),
        );
    lemma_soonest(items, probes as nat, key, order);
    lemma_rows_of_numbered(items, probes as nat, order);
    lemma_in_named_group(order, groups, assignments);
    let dist = |row: usize| math.distance_of(index.measure(), index.data()@[row as int], query);
    let limit = if k < rows {
        k as nat
    } else {
        rows
    };
    lemma_nearest_of_groups(
        index.near(math, query),
        dist,
        groups,
        order,
        limit,
        index.probed(math, query, probes as nat),
        found@,
    );
    assert(probed_rightly(math, index, query, k as nat, probes as nat, order, found@));
}

/// A search looks at the groups whose centroids are nearest to the query and
/// finds the nearest of their rows.
pub proof fn searching_probes_the_nearest_groups<M: VectorMath>(
    math: &M,
    index: &IvfFlatIndex,
    query: &[u32],
    k: usize,
    probes: usize,
    found: Vec<Neighbor>,
)
    requires
        index.wf(),
        call_ensures(
            IvfFlatIndex::search_with_probes::<M>,
            (index, math, query, k, probes),
            Ok(found),
        ),
    ensures
        1 <= probes <= index.centers().len(),
        exists|order: Seq<usize>| #[trigger]
            probed_rightly(math, index, query@, k as nat, probes as nat, order, found@),
{
    lemma_probed_rightly(math, index, query@, k, probes, found);
}

/// The smallest neighbours of the rows of some groups are the nearest of them.
pub proof fn lemma_nearest_of_groups(
    near: spec_fn(usize) -> Neighbor,
    dist: spec_fn(usize) -> u32,
    groups: Seq<Seq<usize>>,
    order: Seq<usize>,
    limit: nat,
    rows: Seq<usize>,
    found: Seq<Neighbor>,
)
    requires
        forall|row: usize| (#[trigger] near(row)).row == row && near(row).distance == dist(row),
        rows.no_duplicates(),
        forall|row: usize| #[trigger] rows.contains(row) <==> in_named_group(groups, order, row),
        found == crate::ranking::smallest(crate::ivf::as_neighbors(near, rows), limit),
    ensures
        nearest_of_groups(dist, groups, order, limit, found),
{
    let items = crate::ivf::as_neighbors(near, rows);
    lemma_as_neighbors(near, rows);
    crate::ranking::lemma_smallest_of_distinct(items, limit);
    assert forall|i: int| 0 <= i < found.len() implies in_named_group(
        groups,
        order,
        (#[trigger] found[i]).row,
    ) && found[i].distance == dist(found[i].row) && found[i] == near(found[i].row) by {
        assert(found.contains(found[i]));
        assert(items.contains(found[i]));
        assert(rows.contains(found[i].row));
    }
    assert forall|i: int, j: int| 0 <= i < j < found.len() implies crate::graph_laws::ahead(
        dist,
        (#[trigger] found[i]).row,
        (#[trigger] found[j]).row,
    ) by {
        assert(!crate::ranking::precedes(found[j].rank(), found[i].rank()));
        if found[i].row == found[j].row {
            assert(found[i] == found[j]);
        }
    }
    assert forall|row: usize|
        in_named_group(groups, order, row) implies #[trigger] crate::graph_laws::found_or_beaten(
        dist,
        found,
        limit,
        row,
    ) by {
        let item = near(row);
        assert(rows.contains(row));
        assert(items.contains(item));
        if found.contains(item) {
            let i = choose|i: int| 0 <= i < found.len() && found[i] == item;
            assert(found[i].row == row);
        } else {
            crate::ranking::lemma_left_out(items, limit, item);
            assert forall|i: int| 0 <= i < found.len() implies crate::graph_laws::ahead(
                dist,
                (#[trigger] found[i]).row,
                row,
            ) by {
                assert(crate::ranking::precedes(found[i].rank(), item.rank()));
            }
        }
    }
}

/// A search through the common interface looks at the configured number of
/// groups.
pub proof fn the_common_search_is_the_configured_one<M: VectorMath>(
    math: &M,
    index: &IvfFlatIndex,
    query: &[u32],
    k: usize,
    found: Vec<Neighbor>,
)
    requires
        index.wf(),
        call_ensures(<IvfFlatIndex as VectorIndex<M>>::search, (index, math, query, k), Ok(found)),
    ensures
        exists|order: Seq<usize>| #[trigger]
            probed_rightly(
                math,
                index,
                query@,
                k as nat,
                index.settings().probes as nat,
                order,
                found@,
            ),
{
    lemma_probed_rightly(math, index, query@, k, index.settings().probes, found);
}

} // verus!
