//! Ranked items: sorting, keeping the best few, taking the best next.

use vstd::prelude::*;

use crate::bits::{total_order_32, total_order_64};
use crate::types::Neighbor;

verus! {

/// Lexicographic order on positions and rows.
pub open spec fn precedes(left: (int, int), right: (int, int)) -> bool {
    left.0 < right.0 || (left.0 == right.0 && left.1 < right.1)
}

/// Items in a strict total order: by their position in the total order of
/// floating-point numbers, then by row.
pub trait Ranked: Copy {
    /// The rank of this item: its position, then its row.
    spec fn rank(self) -> (int, int);

    /// Tells whether this item comes strictly before `other`.
    fn before(&self, other: &Self) -> (first: bool)
        ensures
            first == precedes(self.rank(), other.rank()),
    ;

    /// Items of one rank are one item.
    proof fn rank_identifies(left: Self, right: Self)
        requires
            left.rank() == right.rank(),
        ensures
            left == right,
    ;
}

impl Ranked for Neighbor {
    open spec fn rank(self) -> (int, int) {
        (crate::bits::order_32(self.distance), self.row as int)
    }

    fn before(&self, other: &Self) -> (first: bool) {
        let left: i64 = total_order_32(self.distance);
        let right: i64 = total_order_32(other.distance);
        left < right || (left == right && self.row < other.row)
    }

    proof fn rank_identifies(left: Self, right: Self) {
    }
}

/// A row of a dataset and its approximate score, as a bit pattern.
#[derive(Debug, Clone, Copy, PartialEq, Eq, Structural)]
pub struct ScoredRow {
    /// The row of the dataset.
    pub row: usize,
    /// The double-precision score of that row.
    pub score: u64,
}

impl Ranked for ScoredRow {
    open spec fn rank(self) -> (int, int) {
        (crate::bits::order_64(self.score), self.row as int)
    }

    fn before(&self, other: &Self) -> (first: bool) {
        let left: i64 = total_order_64(self.score);
        let right: i64 = total_order_64(other.score);
        left < right || (left == right && self.row < other.row)
    }

    proof fn rank_identifies(left: Self, right: Self) {
    }
}

/// Whether `items` ascend, equal neighbours allowed.
pub open spec fn ascends<T: Ranked>(items: Seq<T>) -> bool {
    forall|i: int, j: int|
        0 <= i < j < items.len() ==> !precedes(
            (#[trigger] items[j]).rank(),
            (#[trigger] items[i]).rank(),
        )
}

/// Ascending `items` with `item` put in its place.
pub open spec fn insert<T: Ranked>(items: Seq<T>, item: T) -> Seq<T>
    decreases items.len(),
{
    if items.len() == 0 || !precedes(item.rank(), items.last().rank()) {
        items.push(item)
    } else {
        insert(items.drop_last(), item).push(items.last())
    }
}

/// The items of `items` in ascending order.
pub open spec fn ascending<T: Ranked>(items: Seq<T>) -> Seq<T>
    decreases items.len(),
{
    if items.len() == 0 {
        items
    } else {
        insert(ascending(items.drop_last()), items.last())
    }
}

/// The first `k` items, or all of them where there are fewer.
pub open spec fn first_few<T>(items: Seq<T>, k: nat) -> Seq<T> {
    if k < items.len() {
        items.take(k as int)
    } else {
        items
    }
}

/// The `k` smallest of `items`, ascending.
pub open spec fn smallest<T: Ranked>(items: Seq<T>, k: nat) -> Seq<T> {
    first_few(ascending(items), k)
}

pub proof fn lemma_insert_is_insert_at<T: Ranked>(items: Seq<T>, item: T, at: int)
    requires
        0 <= at <= items.len(),
        at > 0 ==> !precedes(item.rank(), items[at - 1].rank()),
        forall|j: int| at <= j < items.len() ==> precedes(item.rank(), (#[trigger] items[j]).rank()),
    ensures
        insert(items, item) == items.insert(at, item),
    decreases items.len(),
{
    if items.len() > at {
        let rest = items.drop_last();
        assert forall|j: int| at <= j < rest.len() implies precedes(
            item.rank(),
            (#[trigger] rest[j]).rank(),
        ) by {
            assert(rest[j] == items[j]);
        }
        lemma_insert_is_insert_at(rest, item, at);
        assert(items.last() == items[items.len() - 1]);
        assert(insert(items, item) =~= items.insert(at, item));
    } else {
        if items.len() > 0 {
            assert(items.last() == items[at - 1]);
        }
        assert(insert(items, item) =~= items.insert(at, item));
    }
}

/// Inserting adds exactly the inserted item and keeps the order.
pub proof fn lemma_insert<T: Ranked>(items: Seq<T>, item: T)
    ensures
        insert(items, item).len() == items.len() + 1,
        insert(items, item).to_multiset() == items.to_multiset().insert(item),
        ascends(items) ==> ascends(insert(items, item)),
        forall|x: T| #[trigger]
            insert(items, item).contains(x) <==> x == item || items.contains(x),
    decreases items.len(),
{
    broadcast use vstd::seq_lib::group_to_multiset_ensures;

    let all = insert(items, item);
    if items.len() == 0 || !precedes(item.rank(), items.last().rank()) {
        assert(all == items.push(item));
        assert(all[items.len() as int] == item);
        assert forall|x: T| all.contains(x) <==> x == item || items.contains(x) by {
            if items.contains(x) {
                let i = choose|i: int| 0 <= i < items.len() && items[i] == x;
                assert(all[i] == x);
            }
            if all.contains(x) {
                let i = choose|i: int| 0 <= i < all.len() && all[i] == x;
                if i < items.len() {
                    assert(items[i] == x);
                }
            }
        }
        if ascends(items) {
            assert forall|i: int, j: int| 0 <= i < j < all.len() implies !precedes(
                (#[trigger] all[j]).rank(),
                (#[trigger] all[i]).rank(),
            ) by {
                if j == items.len() {
                    if i < items.len() - 1 {
                        assert(!precedes(items[items.len() - 1].rank(), items[i].rank()));
                    }
                } else {
                    assert(all[j] == items[j]);
                }
                assert(all[i] == items[i]);
            }
        }
    } else {
        let rest = items.drop_last();
        let last = items.last();
        lemma_insert(rest, item);
        let part = insert(rest, item);
        assert(all == part.push(last));
        assert(items == rest.push(last));
        assert(items.to_multiset() == rest.to_multiset().insert(last));
        assert(all.to_multiset() == part.to_multiset().insert(last));
        assert(all.to_multiset() =~= items.to_multiset().insert(item));
        assert forall|x: T| all.contains(x) <==> x == item || items.contains(x) by {
            assert(all[part.len() as int] == last);
            assert(items[rest.len() as int] == last);
            if part.contains(x) {
                let i = choose|i: int| 0 <= i < part.len() && part[i] == x;
                assert(all[i] == x);
            }
            if rest.contains(x) {
                let i = choose|i: int| 0 <= i < rest.len() && rest[i] == x;
                assert(items[i] == x);
            }
            if all.contains(x) {
                let i = choose|i: int| 0 <= i < all.len() && all[i] == x;
                if i < part.len() {
                    assert(part[i] == x);
                    assert(part.contains(x));
                }
            }
            if items.contains(x) {
                let i = choose|i: int| 0 <= i < items.len() && items[i] == x;
                if i < rest.len() {
                    assert(rest[i] == x);
                    assert(rest.contains(x));
                }
            }
        }
        if ascends(items) {
            assert forall|i: int, j: int| 0 <= i < j < rest.len() implies !precedes(
                (#[trigger] rest[j]).rank(),
                (#[trigger] rest[i]).rank(),
            ) by {
                assert(rest[j] == items[j]);
                assert(rest[i] == items[i]);
            }
            assert forall|i: int, j: int| 0 <= i < j < all.len() implies !precedes(
                (#[trigger] all[j]).rank(),
                (#[trigger] all[i]).rank(),
            ) by {
                assert(all[i] == part[i]);
                if j < part.len() {
                    assert(all[j] == part[j]);
                } else {
                    assert(part.contains(part[i]));
                    if part[i] != item {
                        assert(rest.contains(part[i]));
                        let q = choose|q: int| 0 <= q < rest.len() && rest[q] == part[i];
                        assert(items[q] == part[i]);
                        assert(items[items.len() - 1] == last);
                    }
                }
            }
        }
    }
}

/// Inserting an item that was not there makes no duplicate.
pub proof fn lemma_insert_distinct<T: Ranked>(items: Seq<T>, item: T)
    requires
        items.no_duplicates(),
        !items.contains(item),
    ensures
        insert(items, item).no_duplicates(),
    decreases items.len(),
{
    let all = insert(items, item);
    if items.len() == 0 || !precedes(item.rank(), items.last().rank()) {
        assert forall|i: int, j: int|
            0 <= i < all.len() && 0 <= j < all.len() && i != j implies all[i] != all[j] by {
            assert(i < items.len() ==> items.contains(all[i]));
            assert(j < items.len() ==> items.contains(all[j]));
        }
    } else {
        let rest = items.drop_last();
        let last = items.last();
        assert(items[items.len() - 1] == last);
        assert(items.contains(last));
        assert forall|x: T| rest.contains(x) implies items.contains(x) && x != last by {
            let i = choose|i: int| 0 <= i < rest.len() && rest[i] == x;
            assert(items[i] == x);
        }
        assert(rest.no_duplicates()) by {
            assert forall|i: int, j: int|
                0 <= i < rest.len() && 0 <= j < rest.len() && i != j implies rest[i]
                != rest[j] by {
                assert(items[i] == rest[i] && items[j] == rest[j]);
            }
        }
        lemma_insert_distinct(rest, item);
        lemma_insert(rest, item);
        let part = insert(rest, item);
        assert(!part.contains(last));
        assert forall|i: int, j: int|
            0 <= i < all.len() && 0 <= j < all.len() && i != j implies all[i] != all[j] by {
            assert(i < part.len() ==> part.contains(all[i]));
            assert(j < part.len() ==> part.contains(all[j]));
        }
    }
}

/// The first few of ascending items ascend, and are among them.
pub proof fn lemma_first_few<T: Ranked>(items: Seq<T>, k: nat)
    ensures
        first_few(items, k).len() <= k,
        first_few(items, k).len() <= items.len(),
        ascends(items) ==> ascends(first_few(items, k)),
        items.no_duplicates() ==> first_few(items, k).no_duplicates(),
        forall|x: T| #[trigger] first_few(items, k).contains(x) ==> items.contains(x),
{
    let few = first_few(items, k);
    assert forall|i: int| 0 <= i < few.len() implies #[trigger] few[i] == items[i] by {}
    assert forall|x: T| #[trigger] few.contains(x) implies items.contains(x) by {
        let i = choose|i: int| 0 <= i < few.len() && few[i] == x;
        assert(items[i] == x);
    }
}

/// Sorting rearranges: `ascending` holds the same items as often, and ascends.
pub proof fn ascending_sorts<T: Ranked>(items: Seq<T>)
    ensures
        ascends(ascending(items)),
        ascending(items).to_multiset() == items.to_multiset(),
        ascending(items).len() == items.len(),
        forall|x: T| #[trigger] ascending(items).contains(x) <==> items.contains(x),
    decreases items.len(),
{
    broadcast use vstd::seq_lib::group_to_multiset_ensures;

    if items.len() > 0 {
        let rest = items.drop_last();
        ascending_sorts(rest);
        lemma_insert(ascending(rest), items.last());
        assert(items == rest.push(items.last()));
        assert forall|x: T| #[trigger] ascending(items).contains(x) <==> items.contains(x) by {
            assert(items[rest.len() as int] == items.last());
            if rest.contains(x) {
                let i = choose|i: int| 0 <= i < rest.len() && rest[i] == x;
                assert(items[i] == x);
            }
            if items.contains(x) {
                let i = choose|i: int| 0 <= i < items.len() && items[i] == x;
                if i < rest.len() {
                    assert(rest[i] == x);
                }
            }
            assert(ascending(rest).contains(x) <==> rest.contains(x));
            assert(insert(ascending(rest), items.last()).contains(x) <==> x == items.last()
                || ascending(rest).contains(x));
        }
    }
}

/// What does not make it into the first `k` need not be kept.
pub proof fn lemma_insert_into_first_few<T: Ranked>(items: Seq<T>, item: T, k: nat)
    requires
        ascends(items),
    ensures
        first_few(insert(items, item), k) == first_few(insert(first_few(items, k), item), k),
    decreases items.len(),
{
    if items.len() > k {
        let few = items.take(k as int);
        if !precedes(item.rank(), items.last().rank()) {
            if k > 0 {
                assert(few.last() == items[k - 1]);
                if k - 1 < items.len() - 1 {
                    assert(!precedes(items[items.len() - 1].rank(), items[k - 1].rank()));
                }
                assert(insert(few, item) == few.push(item));
            } else {
                assert(insert(few, item).len() == 1) by {
                    lemma_insert(few, item);
                }
            }
            assert(first_few(insert(items, item), k) =~= first_few(insert(few, item), k));
        } else {
            let rest = items.drop_last();
            assert forall|i: int, j: int| 0 <= i < j < rest.len() implies !precedes(
                (#[trigger] rest[j]).rank(),
                (#[trigger] rest[i]).rank(),
            ) by {
                assert(rest[j] == items[j]);
                assert(rest[i] == items[i]);
            }
            lemma_insert_into_first_few(rest, item, k);
            lemma_insert(rest, item);
            assert(first_few(rest, k) =~= few);
            assert(first_few(insert(items, item), k) =~= first_few(insert(rest, item), k));
        }
    }
}

/// Pushing one more item: the `k` smallest come from the `k` smallest so far.
pub proof fn lemma_smallest_push<T: Ranked>(items: Seq<T>, item: T, k: nat)
    ensures
        smallest(items.push(item), k) == first_few(insert(smallest(items, k), item), k),
{
    assert(items.push(item).drop_last() =~= items);
    ascending_sorts(items);
    lemma_insert_into_first_few(ascending(items), item, k);
}

/// The smallest of some items, at least one.
pub open spec fn least<T: Ranked>(items: Seq<T>) -> T
    decreases items.len(),
{
    if items.len() <= 1 {
        items[0]
    } else {
        let so_far = least(items.drop_last());
        if precedes(items.last().rank(), so_far.rank()) {
            items.last()
        } else {
            so_far
        }
    }
}

/// The smallest item is one of the items, and none comes before it.
pub proof fn least_is_the_minimum<T: Ranked>(items: Seq<T>)
    requires
        items.len() > 0,
    ensures
        items.contains(least(items)),
        forall|i: int|
            0 <= i < items.len() ==> !precedes((#[trigger] items[i]).rank(), least(items).rank()),
    decreases items.len(),
{
    if items.len() == 1 {
        assert(items[0] == least(items));
    } else {
        let rest = items.drop_last();
        least_is_the_minimum(rest);
        assert(items[items.len() - 1] == items.last());
        let j = choose|j: int| 0 <= j < rest.len() && rest[j] == least(rest);
        assert(items[j] == least(rest));
        assert forall|i: int| 0 <= i < items.len() implies !precedes(
            (#[trigger] items[i]).rank(),
            least(items).rank(),
        ) by {
            if i < rest.len() {
                assert(rest[i] == items[i]);
            }
        }
    }
}

/// There is one way to put items in ascending order.
pub proof fn lemma_ascending_is_unique<T: Ranked>(left: Seq<T>, right: Seq<T>)
    requires
        ascends(left),
        ascends(right),
        left.to_multiset() == right.to_multiset(),
    ensures
        left == right,
    decreases left.len(),
{
    broadcast use vstd::seq_lib::group_to_multiset_ensures;

    assert(left.len() == left.to_multiset().len());
    assert(right.len() == right.to_multiset().len());
    if left.len() == 0 {
        assert(left =~= right);
    } else {
        let a = left.last();
        let b = right.last();
        assert(left[left.len() - 1] == a);
        assert(right[right.len() - 1] == b);
        assert(left.contains(a));
        assert(right.contains(b));
        assert(right.to_multiset().count(a) > 0);
        assert(left.to_multiset().count(b) > 0);
        assert(right.contains(a));
        assert(left.contains(b));
        let i = choose|i: int| 0 <= i < right.len() && right[i] == a;
        let j = choose|j: int| 0 <= j < left.len() && left[j] == b;
        if a.rank() != b.rank() {
            if i < right.len() - 1 {
                assert(!precedes(right[right.len() - 1].rank(), right[i].rank()));
            }
            if j < left.len() - 1 {
                assert(!precedes(left[left.len() - 1].rank(), left[j].rank()));
            }
        }
        T::rank_identifies(a, b);
        let shorter_left = left.drop_last();
        let shorter_right = right.drop_last();
        assert(left =~= shorter_left.push(a));
        assert(right =~= shorter_right.push(a));
        assert(left.to_multiset() == shorter_left.to_multiset().insert(a));
        assert(right.to_multiset() == shorter_right.to_multiset().insert(a));
        assert(shorter_left.to_multiset() =~= left.to_multiset().remove(a));
        assert(shorter_right.to_multiset() =~= right.to_multiset().remove(a));
        assert forall|i: int, j: int| 0 <= i < j < shorter_left.len() implies !precedes(
            (#[trigger] shorter_left[j]).rank(),
            (#[trigger] shorter_left[i]).rank(),
        ) by {
            assert(shorter_left[i] == left[i] && shorter_left[j] == left[j]);
        }
        assert forall|i: int, j: int| 0 <= i < j < shorter_right.len() implies !precedes(
            (#[trigger] shorter_right[j]).rank(),
            (#[trigger] shorter_right[i]).rank(),
        ) by {
            assert(shorter_right[i] == right[i] && shorter_right[j] == right[j]);
        }
        lemma_ascending_is_unique(shorter_left, shorter_right);
    }
}

/// Sorting does not depend on the order that the items came in.
pub proof fn sorting_forgets_the_order<T: Ranked>(left: Seq<T>, right: Seq<T>)
    requires
        left.to_multiset() == right.to_multiset(),
    ensures
        ascending(left) == ascending(right),
{
    ascending_sorts(left);
    ascending_sorts(right);
    lemma_ascending_is_unique(ascending(left), ascending(right));
}

/// Finds where `item` goes in ascending `items`: behind all that it does not
/// come before.
fn insertion_point<T: Ranked>(items: &Vec<T>, item: &T) -> (at: usize)
    requires
        ascends(items@),
    ensures
        at <= items@.len(),
        insert(items@, *item) == items@.insert(at as int, *item),
{
    let mut at: usize = items.len();
    while at > 0 && item.before(&items[at - 1])
        invariant
            at <= items@.len(),
            ascends(items@),
            forall|j: int|
                at <= j < items@.len() ==> precedes(item.rank(), (#[trigger] items@[j]).rank()),
        decreases at,
    {
        at -= 1;
    }
    proof {
        lemma_insert_is_insert_at(items@, *item, at as int);
    }
    at
}

/// An item that the first few of distinct ascending items leave out is preceded
/// by all of these, and these are `k`.
pub proof fn lemma_beyond_first_few<T: Ranked>(items: Seq<T>, k: nat, item: T)
    requires
        ascends(items),
        items.no_duplicates(),
        items.contains(item),
        !first_few(items, k).contains(item),
    ensures
        first_few(items, k).len() == k,
        forall|i: int|
            0 <= i < k ==> precedes((#[trigger] first_few(items, k)[i]).rank(), item.rank()),
{
    let few = first_few(items, k);
    let j = choose|j: int| 0 <= j < items.len() && items[j] == item;
    if j < few.len() {
        assert(few[j] == item);
    }
    assert forall|i: int| 0 <= i < k implies precedes((#[trigger] few[i]).rank(), item.rank()) by {
        assert(few[i] == items[i]);
        assert(!precedes(items[j].rank(), items[i].rank()));
        if items[i].rank() == items[j].rank() {
            T::rank_identifies(items[i], items[j]);
        }
    }
}

/// A distinct item that is not among the smallest is preceded by all of them,
/// and these are `k`.
pub proof fn lemma_left_out<T: Ranked>(items: Seq<T>, k: nat, item: T)
    requires
        items.no_duplicates(),
        items.contains(item),
        !smallest(items, k).contains(item),
    ensures
        smallest(items, k).len() == k,
        forall|i: int|
            0 <= i < k ==> precedes((#[trigger] smallest(items, k)[i]).rank(), item.rank()),
{
    broadcast use vstd::seq_lib::group_to_multiset_ensures;

    let order = ascending(items);
    ascending_sorts(items);
    items.lemma_multiset_has_no_duplicates();
    order.lemma_multiset_has_no_duplicates_conv();
    assert(order.contains(item));
    lemma_beyond_first_few(order, k, item);
}

/// Ascending items sort to themselves.
proof fn lemma_ascending_of_ascending<T: Ranked>(items: Seq<T>)
    requires
        ascends(items),
    ensures
        ascending(items) == items,
{
    ascending_sorts(items);
    lemma_ascending_is_unique(ascending(items), items);
}

/// Distinct ascending items are the smallest where they are no more than `k`
/// and any other is preceded by `k` of them.
pub proof fn lemma_are_smallest<T: Ranked>(items: Seq<T>, found: Seq<T>, k: nat)
    requires
        items.no_duplicates(),
        found.no_duplicates(),
        ascends(found),
        found.len() <= k,
        forall|x: T| #[trigger] found.contains(x) ==> items.contains(x),
        forall|x: T| #[trigger]
            items.contains(x) ==> found.contains(x) || (found.len() == k && forall|i: int|
                0 <= i < k ==> precedes((#[trigger] found[i]).rank(), x.rank())),
    ensures
        found == smallest(items, k),
{
    broadcast use vstd::seq_lib::group_to_multiset_ensures;

    let order = ascending(items);
    let few = smallest(items, k);
    ascending_sorts(items);
    items.lemma_multiset_has_no_duplicates();
    order.lemma_multiset_has_no_duplicates_conv();
    lemma_smallest_of_distinct(items, k);
    crate::seqs::lemma_distinct_part(found, items);
    assert forall|x: T| #[trigger] few.contains(x) implies found.contains(x) by {
        assert(items.contains(x));
        if !found.contains(x) {
            let j = choose|j: int| 0 <= j < few.len() && few[j] == x;
            let before = order.take(j);
            assert(order[j] == x);
            assert forall|y: T| #[trigger] found.contains(y) implies before.contains(y) by {
                let i = choose|i: int| 0 <= i < found.len() && found[i] == y;
                assert(precedes(found[i].rank(), x.rank()));
                assert(order.contains(y));
                let p = choose|p: int| 0 <= p < order.len() && order[p] == y;
                if p > j {
                    assert(!precedes(order[p].rank(), order[j].rank()));
                }
                assert(before[p] == y);
            }
            assert forall|i: int, h: int|
                0 <= i < before.len() && 0 <= h < before.len() && i != h implies before[i]
                != before[h] by {
                assert(before[i] == order[i] && before[h] == order[h]);
            }
            crate::seqs::lemma_distinct_part(found, before);
        }
    }
    crate::seqs::lemma_distinct_part(few, found);
    assert forall|x: T| #[trigger] found.contains(x) <==> few.contains(x) by {
        if found.contains(x) {
            if found.len() < k && !few.contains(x) {
                assert(items.contains(x));
            }
        }
    }
    lemma_same_items_same_order(found, few);
    lemma_ascending_of_ascending(found);
    lemma_ascending_of_ascending(few);
}

/// Distinct items sort alike where they are the same.
pub proof fn lemma_same_items_same_order<T: Ranked>(left: Seq<T>, right: Seq<T>)
    requires
        left.no_duplicates(),
        right.no_duplicates(),
        forall|x: T| #[trigger] left.contains(x) <==> right.contains(x),
    ensures
        ascending(left) == ascending(right),
{
    broadcast use vstd::seq_lib::group_to_multiset_ensures;

    left.lemma_multiset_has_no_duplicates();
    right.lemma_multiset_has_no_duplicates();
    assert forall|x: T| left.to_multiset().count(x) == right.to_multiset().count(x) by {
        assert(left.contains(x) <==> right.contains(x));
        assert(left.contains(x) <==> left.to_multiset().count(x) > 0);
        assert(right.contains(x) <==> right.to_multiset().count(x) > 0);
        if left.contains(x) {
            assert(left.to_multiset().contains(x));
            assert(right.to_multiset().contains(x));
        }
    }
    assert(left.to_multiset() =~= right.to_multiset());
    sorting_forgets_the_order(left, right);
}

/// The smallest of distinct items: distinct ones of them, ascending.
pub proof fn lemma_smallest_of_distinct<T: Ranked>(items: Seq<T>, k: nat)
    requires
        items.no_duplicates(),
    ensures
        ascends(smallest(items, k)),
        smallest(items, k).no_duplicates(),
        smallest(items, k).len() == crate::seqs::min(k, items.len()),
        forall|x: T| #[trigger] smallest(items, k).contains(x) ==> items.contains(x),
        k >= items.len() ==> forall|x: T| #[trigger]
            smallest(items, k).contains(x) <==> items.contains(x),
{
    broadcast use vstd::seq_lib::group_to_multiset_ensures;

    let order = ascending(items);
    ascending_sorts(items);
    items.lemma_multiset_has_no_duplicates();
    order.lemma_multiset_has_no_duplicates_conv();
    lemma_first_few(order, k);
    assert forall|x: T| #[trigger] smallest(items, k).contains(x) implies items.contains(x) by {
        assert(order.contains(x));
    }
    if k >= items.len() {
        assert forall|x: T| #[trigger] smallest(items, k).contains(x) <==> items.contains(x) by {
            assert(order.contains(x) <==> items.contains(x));
        }
    }
}

/// Sorts `items` ascending.
pub fn sort<T: Ranked>(items: Vec<T>) -> (sorted: Vec<T>)
    ensures
        sorted@ == ascending(items@),
{
    let mut sorted: Vec<T> = Vec::new();
    assert(items@.take(0) =~= Seq::<T>::empty());
    for i in 0..items.len()
        invariant
            sorted@ == ascending(items@.take(i as int)),
    {
        let item = items[i];
        proof {
            ascending_sorts(items@.take(i as int));
            assert(items@.take(i + 1).drop_last() =~= items@.take(i as int));
        }
        let at: usize = insertion_point(&sorted, &item);
        sorted.insert(at, item);
    }
    assert(items@.take(items@.len() as int) =~= items@);
    sorted
}

/// Keeps the `k` smallest of the items pushed into it.
#[derive(Debug)]
pub struct TopK<T> {
    k: usize,
    items: Vec<T>,
}

impl<T> View for TopK<T> {
    type V = Seq<T>;

    closed spec fn view(&self) -> Seq<T> {
        self.items@
    }
}

impl<T> TopK<T> {
    /// How many items are kept at most.
    pub closed spec fn capacity(&self) -> nat {
        self.k as nat
    }
}

impl<T: Ranked> TopK<T> {
    /// At most `k` items, ascending.
    pub open spec fn wf(&self) -> bool {
        self@.len() <= self.capacity() && ascends(self@)
    }

    /// An empty selection of at most `k` items.
    pub fn new(k: usize) -> (top: Self)
        ensures
            top.wf(),
            top.capacity() == k,
            top@ == Seq::<T>::empty(),
    {
        TopK { k, items: Vec::new() }
    }

    /// Offers an item: the `k` smallest of the kept ones and this one stay.
    pub fn push(&mut self, item: T)
        requires
            old(self).wf(),
        ensures
            final(self).wf(),
            final(self).capacity() == old(self).capacity(),
            final(self)@ == first_few(insert(old(self)@, item), old(self).capacity()),
    {
        if self.k == 0 {
            proof {
                lemma_insert(self@, item);
                assert(first_few(insert(self@, item), 0) =~= self@);
            }
            return ;
        }
        let ghost before = self.items@;
        let at: usize = insertion_point(&self.items, &item);
        self.items.insert(at, item);
        proof {
            lemma_insert(before, item);
        }
        if self.items.len() > self.k {
            self.items.pop();
            assert(self.items@ =~= insert(before, item).take(self.k as int));
        }
        assert(ascends(self.items@)) by {
            let all = insert(before, item);
            assert forall|i: int, j: int| 0 <= i < j < self.items@.len() implies !precedes(
                (#[trigger] self.items@[j]).rank(),
                (#[trigger] self.items@[i]).rank(),
            ) by {
                assert(self.items@[i] == all[i]);
                assert(self.items@[j] == all[j]);
            }
        }
    }

    /// The number of items kept.
    pub fn len(&self) -> (len: usize)
        ensures
            len == self@.len(),
    {
        self.items.len()
    }

    /// The largest item kept.
    pub fn worst(&self) -> (worst: Option<T>)
        ensures
            worst == (if self@.len() > 0 {
                Some(self@.last())
            } else {
                None
            }),
    {
        if self.items.len() > 0 {
            Some(self.items[self.items.len() - 1])
        } else {
            None
        }
    }

    /// The items kept, ascending.
    pub fn into_sorted(self) -> (items: Vec<T>)
        ensures
            items@ == self@,
    {
        self.items
    }
}

/// Hands out the smallest item pushed into it first.
#[derive(Debug)]
pub struct MinQueue<T> {
    /// Largest first, so that the next item to hand out stands last.
    items: Vec<T>,
}

impl<T> View for MinQueue<T> {
    type V = Seq<T>;

    closed spec fn view(&self) -> Seq<T> {
        self.items@.reverse()
    }
}

impl<T: Ranked> MinQueue<T> {
    /// The items wait in ascending order.
    pub open spec fn wf(&self) -> bool {
        ascends(self@)
    }

    /// An empty queue.
    pub fn new() -> (queue: Self)
        ensures
            queue.wf(),
            queue@ == Seq::<T>::empty(),
    {
        let queue = MinQueue { items: Vec::new() };
        assert(queue@ =~= Seq::<T>::empty());
        queue
    }

    /// Adds an item in its place.
    pub fn push(&mut self, item: T)
        requires
            old(self).wf(),
        ensures
            final(self).wf(),
            final(self)@ == insert(old(self)@, item),
    {
        let ghost waiting = self@;
        let mut at: usize = 0;
        while at < self.items.len() && item.before(&self.items[at])
            invariant
                at <= self.items@.len(),
                waiting == self.items@.reverse(),
                forall|j: int|
                    0 <= j < at ==> precedes(item.rank(), (#[trigger] self.items@[j]).rank()),
            decreases self.items@.len() - at,
        {
            at += 1;
        }
        proof {
            let place = self.items@.len() - at;
            if place > 0 {
                assert(waiting[place - 1] == self.items@[at as int]);
            }
            assert forall|j: int| place <= j < waiting.len() implies precedes(
                item.rank(),
                (#[trigger] waiting[j]).rank(),
            ) by {
                assert(waiting[j] == self.items@[waiting.len() - 1 - j]);
            }
            lemma_insert_is_insert_at(waiting, item, place);
            lemma_insert(waiting, item);
            assert(self.items@.insert(at as int, item).reverse() =~= waiting.insert(place, item));
        }
        self.items.insert(at, item);
    }

    /// Takes the smallest item out.
    pub fn pop(&mut self) -> (item: Option<T>)
        requires
            old(self).wf(),
        ensures
            final(self).wf(),
            old(self)@.len() == 0 ==> item is None && final(self)@ == old(self)@,
            old(self)@.len() > 0 ==> item == Some(old(self)@.first()) && final(self)@
                == old(self)@.drop_first(),
    {
        let ghost waiting = self@;
        let item = self.items.pop();
        proof {
            if waiting.len() > 0 {
                assert(self@ =~= waiting.drop_first());
                assert forall|i: int, j: int| 0 <= i < j < self@.len() implies !precedes(
                    (#[trigger] self@[j]).rank(),
                    (#[trigger] self@[i]).rank(),
                ) by {
                    assert(self@[i] == waiting[i + 1]);
                    assert(self@[j] == waiting[j + 1]);
                }
            } else {
                assert(self@ =~= waiting);
            }
        }
        item
    }
}

} // verus!
