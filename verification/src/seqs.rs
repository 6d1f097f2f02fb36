//! Small helpers on vectors.

use vstd::prelude::*;

verus! {

/// A vector with the items of `items`.
pub fn copied<T: Copy>(items: &[T]) -> (copy: Vec<T>)
    ensures
        copy@ == items@,
{
    let mut copy: Vec<T> = Vec::new();
    for i in 0..items.len()
        invariant
            copy@ == items@.take(i as int),
    {
        copy.push(items[i]);
        assert(items@.take(i + 1) =~= items@.take(i as int).push(items@[i as int]));
    }
    assert(items@.take(items@.len() as int) =~= items@);
    copy
}

/// Tells whether `rows` holds `row`.
pub fn holds(rows: &[usize], row: usize) -> (found: bool)
    ensures
        found == rows@.contains(row),
{
    for i in 0..rows.len()
        invariant
            forall|j: int| 0 <= j < i ==> rows@[j] != row,
    {
        if rows[i] == row {
            return true;
        }
    }
    false
}

/// Tells whether two lists of rows are one.
pub fn same_rows(left: &[usize], right: &[usize]) -> (same: bool)
    ensures
        same == (left@ == right@),
{
    if left.len() != right.len() {
        return false;
    }
    for i in 0..left.len()
        invariant
            left@.len() == right@.len(),
            forall|j: int| 0 <= j < i ==> left@[j] == right@[j],
    {
        if left[i] != right[i] {
            return false;
        }
    }
    assert(left@ =~= right@);
    true
}

/// `rows` without `row`.
pub open spec fn without(rows: Seq<usize>, row: usize) -> Seq<usize>
    decreases rows.len(),
{
    if rows.len() == 0 {
        rows
    } else if rows.last() == row {
        without(rows.drop_last(), row)
    } else {
        without(rows.drop_last(), row).push(rows.last())
    }
}

/// Takes `row` out of `rows`.
pub fn retain_others(rows: &[usize], row: usize) -> (others: Vec<usize>)
    ensures
        others@ == without(rows@, row),
{
    let mut others: Vec<usize> = Vec::new();
    assert(rows@.take(0) =~= Seq::<usize>::empty());
    for i in 0..rows.len()
        invariant
            others@ == without(rows@.take(i as int), row),
    {
        assert(rows@.take(i + 1).drop_last() =~= rows@.take(i as int));
        if rows[i] != row {
            others.push(rows[i]);
        }
    }
    assert(rows@.take(rows@.len() as int) =~= rows@);
    others
}

/// The smaller of two numbers.
pub open spec fn min(left: nat, right: nat) -> nat {
    if left < right {
        left
    } else {
        right
    }
}

/// The larger of two numbers.
pub open spec fn max(left: nat, right: nat) -> nat {
    if left < right {
        right
    } else {
        left
    }
}

/// The smaller of two numbers.
pub fn smaller(left: usize, right: usize) -> (result: usize)
    ensures
        result == min(left as nat, right as nat),
{
    if left < right {
        left
    } else {
        right
    }
}

/// The larger of two numbers.
pub fn larger(left: usize, right: usize) -> (result: usize)
    ensures
        result == max(left as nat, right as nat),
{
    if left < right {
        right
    } else {
        left
    }
}

pub proof fn lemma_push_contains(rows: Seq<usize>, row: usize)
    ensures
        forall|x: usize| #[trigger] rows.push(row).contains(x) <==> x == row || rows.contains(x),
{
    assert forall|x: usize| #[trigger] rows.push(row).contains(x) <==> x == row || rows.contains(
        x,
    ) by {
        assert(rows.push(row)[rows.len() as int] == row);
        if rows.contains(x) {
            let i = choose|i: int| 0 <= i < rows.len() && rows[i] == x;
            assert(rows.push(row)[i] == x);
        }
        if rows.push(row).contains(x) {
            let i = choose|i: int| 0 <= i < rows.push(row).len() && rows.push(row)[i] == x;
            if i < rows.len() {
                assert(rows[i] == x);
            }
        }
    }
}

pub proof fn lemma_concat_contains(left: Seq<usize>, right: Seq<usize>)
    ensures
        forall|x: usize| #[trigger]
            (left + right).contains(x) <==> left.contains(x) || right.contains(x),
{
    let both = left + right;
    assert forall|x: usize| #[trigger] (left + right).contains(x) <==> left.contains(x)
        || right.contains(x) by {
        if left.contains(x) {
            let i = choose|i: int| 0 <= i < left.len() && left[i] == x;
            assert(both[i] == x);
        }
        if right.contains(x) {
            let i = choose|i: int| 0 <= i < right.len() && right[i] == x;
            assert(both[left.len() + i] == x);
        }
        if both.contains(x) {
            let i = choose|i: int| 0 <= i < both.len() && both[i] == x;
            if i < left.len() {
                assert(left[i] == x);
            } else {
                assert(right[i - left.len()] == x);
            }
        }
    }
}

pub proof fn lemma_drop_last_contains(rows: Seq<usize>)
    requires
        rows.len() > 0,
    ensures
        rows == rows.drop_last().push(rows.last()),
        forall|x: usize| #[trigger]
            rows.contains(x) <==> x == rows.last() || rows.drop_last().contains(x),
{
    assert(rows =~= rows.drop_last().push(rows.last()));
    lemma_push_contains(rows.drop_last(), rows.last());
}

/// Taking a row out leaves the others, in order.
pub proof fn lemma_without(rows: Seq<usize>, row: usize)
    ensures
        without(rows, row).len() <= rows.len(),
        forall|x: usize| #[trigger]
            without(rows, row).contains(x) <==> x != row && rows.contains(x),
        rows.no_duplicates() ==> without(rows, row).no_duplicates(),
    decreases rows.len(),
{
    if rows.len() > 0 {
        let rest = rows.drop_last();
        let last = rows.last();
        lemma_without(rest, row);
        lemma_drop_last_contains(rows);
        if last != row {
            lemma_push_contains(without(rest, row), last);
            if rows.no_duplicates() {
                assert(!rest.contains(last)) by {
                    if rest.contains(last) {
                        let i = choose|i: int| 0 <= i < rest.len() && rest[i] == last;
                        assert(rows[i] == rows[rows.len() - 1]);
                    }
                }
                assert(rest.no_duplicates()) by {
                    assert forall|i: int, j: int|
                        0 <= i < rest.len() && 0 <= j < rest.len() && i != j implies rest[i]
                        != rest[j] by {
                        assert(rows[i] == rest[i] && rows[j] == rest[j]);
                    }
                }
                let all = without(rest, row).push(last);
                assert forall|i: int, j: int|
                    0 <= i < all.len() && 0 <= j < all.len() && i != j implies all[i]
                    != all[j] by {
                    assert(i < without(rest, row).len() ==> without(rest, row).contains(all[i]));
                    assert(j < without(rest, row).len() ==> without(rest, row).contains(all[j]));
                }
            }
        } else if rows.no_duplicates() {
            assert(rest.no_duplicates()) by {
                assert forall|i: int, j: int|
                    0 <= i < rest.len() && 0 <= j < rest.len() && i != j implies rest[i]
                    != rest[j] by {
                    assert(rows[i] == rest[i] && rows[j] == rest[j]);
                }
            }
        }
    }
}

/// Distinct rows below `n` are at most `n`.
pub proof fn lemma_distinct_rows_fit(rows: Seq<usize>, n: nat)
    requires
        n <= usize::MAX,
        rows.no_duplicates(),
        forall|i: int| 0 <= i < rows.len() ==> (#[trigger] rows[i]) < n,
    ensures
        rows.len() <= n,
{
    let all = Seq::new(n, |i: int| i as usize);
    rows.unique_seq_to_set();
    all.unique_seq_to_set();
    assert forall|row: usize| rows.to_set().contains(row) implies all.to_set().contains(row) by {
        let i = choose|i: int| 0 <= i < rows.len() && rows[i] == row;
        assert(all[row as int] == row);
    }
    vstd::set_lib::lemma_len_subset(rows.to_set(), all.to_set());
}

/// Distinct items that are all in a list of distinct items are no more than
/// these, and fewer where one of these is missing.
pub proof fn lemma_distinct_part<T>(part: Seq<T>, whole: Seq<T>)
    requires
        part.no_duplicates(),
        whole.no_duplicates(),
        forall|x: T| #[trigger] part.contains(x) ==> whole.contains(x),
    ensures
        part.len() <= whole.len(),
        part.len() == whole.len() ==> forall|x: T| #[trigger]
            whole.contains(x) ==> part.contains(x),
{
    part.unique_seq_to_set();
    whole.unique_seq_to_set();
    assert forall|x: T| part.to_set().contains(x) implies whole.to_set().contains(x) by {
        assert(part.contains(x));
    }
    vstd::set_lib::lemma_len_subset(part.to_set(), whole.to_set());
    if part.len() == whole.len() {
        vstd::set_lib::lemma_subset_equality(part.to_set(), whole.to_set());
        assert forall|x: T| #[trigger] whole.contains(x) implies part.contains(x) by {
            assert(whole.to_set().contains(x));
        }
    }
}

/// The number of items in all lists together.
pub open spec fn total<T>(groups: Seq<Seq<T>>) -> nat
    decreases groups.len(),
{
    if groups.len() == 0 {
        0
    } else {
        total(groups.drop_last()) + groups.last().len()
    }
}

pub proof fn lemma_total_of_take<T>(groups: Seq<Seq<T>>, c: int)
    requires
        0 <= c <= groups.len(),
    ensures
        total(groups.take(c)) <= total(groups),
    decreases groups.len(),
{
    if c == groups.len() {
        assert(groups.take(c) =~= groups);
    } else {
        assert(groups.drop_last().take(c) =~= groups.take(c));
        lemma_total_of_take(groups.drop_last(), c);
    }
}

/// The number of items in all lists of lists together.
pub open spec fn grand_total<T>(groups: Seq<Seq<Seq<T>>>) -> nat
    decreases groups.len(),
{
    if groups.len() == 0 {
        0
    } else {
        grand_total(groups.drop_last()) + total(groups.last())
    }
}

pub proof fn lemma_grand_total_of_take<T>(groups: Seq<Seq<Seq<T>>>, c: int)
    requires
        0 <= c <= groups.len(),
    ensures
        grand_total(groups.take(c)) <= grand_total(groups),
    decreases groups.len(),
{
    if c == groups.len() {
        assert(groups.take(c) =~= groups);
    } else {
        assert(groups.drop_last().take(c) =~= groups.take(c));
        lemma_grand_total_of_take(groups.drop_last(), c);
    }
}

/// Lists of one length: their number times it.
pub proof fn lemma_total_of_uniform<T>(groups: Seq<Seq<T>>, len: nat)
    requires
        forall|c: int| 0 <= c < groups.len() ==> (#[trigger] groups[c]).len() == len,
    ensures
        total(groups) == groups.len() * len,
    decreases groups.len(),
{
    if groups.len() > 0 {
        let rest = groups.drop_last();
        assert forall|c: int| 0 <= c < rest.len() implies (#[trigger] rest[c]).len() == len by {
            assert(rest[c] == groups[c]);
        }
        lemma_total_of_uniform(rest, len);
        assert(groups[groups.len() - 1].len() == len);
        assert(groups.len() * len == (groups.len() - 1) * len + len) by (nonlinear_arith)
            requires
                groups.len() > 0,
        ;
    }
}

/// Lists of lists whose innermost ones have one length: the number of these
/// times it.
pub proof fn lemma_grand_total_of_uniform<T>(groups: Seq<Seq<Seq<T>>>, len: nat)
    requires
        forall|c: int, i: int|
            0 <= c < groups.len() && 0 <= i < groups[c].len() ==> (#[trigger] groups[c][i]).len()
                == len,
    ensures
        grand_total(groups) == total(groups) * len,
    decreases groups.len(),
{
    if groups.len() > 0 {
        let rest = groups.drop_last();
        assert forall|c: int, i: int| 0 <= c < rest.len() && 0 <= i < rest[c].len() implies (
        #[trigger] rest[c][i]).len() == len by {
            assert(rest[c][i] == groups[c][i]);
        }
        lemma_grand_total_of_uniform(rest, len);
        let last = groups.last();
        assert forall|i: int| 0 <= i < last.len() implies (#[trigger] last[i]).len() == len by {
            assert(last[i] == groups[groups.len() - 1][i]);
        }
        lemma_total_of_uniform(last, len);
        assert((total(rest) + last.len()) * len == total(rest) * len + last.len() * len)
            by (nonlinear_arith);
    } else {
        assert(total(groups) * len == 0) by (nonlinear_arith)
            requires
                total(groups) == 0,
        ;
    }
}

} // verus!
