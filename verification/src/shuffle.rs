//! Shuffling rows by draws made elsewhere.

use vstd::prelude::*;

verus! {

/// The numbers below `n`, ascending.
pub open spec fn identity(n: nat) -> Seq<usize> {
    Seq::new(n, |i: int| i as usize)
}

/// `order` with two places exchanged.
pub open spec fn exchanged(order: Seq<usize>, i: int, j: int) -> Seq<usize> {
    order.update(i, order[j]).update(j, order[i])
}

/// The rows below `n` shuffled by `draws`: from the last place down to the
/// second, each is exchanged with the place drawn for it.
pub open spec fn shuffled(n: nat, draws: Seq<usize>) -> Seq<usize>
    decreases draws.len(),
{
    if draws.len() == 0 {
        identity(n)
    } else {
        exchanged(shuffled(n, draws.drop_last()), n - draws.len(), draws.last() as int)
    }
}

/// Whether `draws` can shuffle `n` rows: one draw for each place from the last
/// down to the second, none beyond its place.
pub open spec fn valid_draws(n: nat, draws: Seq<usize>) -> bool {
    &&& draws.len() + 1 == n
    &&& forall|i: int| 0 <= i < draws.len() ==> (#[trigger] draws[i]) < n - i
}

/// Whether `order` holds each of the numbers below `n` once.
pub open spec fn permutes(order: Seq<usize>, n: nat) -> bool {
    &&& order.len() == n
    &&& order.no_duplicates()
    &&& forall|i: int| 0 <= i < order.len() ==> (#[trigger] order[i]) < n
}

/// Whatever is drawn, shuffling loses no row and doubles none.
pub proof fn shuffling_permutes(n: nat, draws: Seq<usize>)
    requires
        n <= usize::MAX,
        draws.len() < n,
        forall|i: int| 0 <= i < draws.len() ==> (#[trigger] draws[i]) < n,
    ensures
        permutes(shuffled(n, draws), n),
    decreases draws.len(),
{
    if draws.len() > 0 {
        let rest = draws.drop_last();
        assert forall|i: int| 0 <= i < rest.len() implies (#[trigger] rest[i]) < n by {
            assert(rest[i] == draws[i]);
        }
        shuffling_permutes(n, rest);
        let before = shuffled(n, rest);
        let i = n - draws.len();
        let j = draws.last() as int;
        assert(draws[draws.len() - 1] < n);
        let after = exchanged(before, i, j);
        assert forall|a: int, b: int|
            0 <= a < after.len() && 0 <= b < after.len() && a != b implies after[a]
            != after[b] by {
            let c = if a == i { j } else if a == j { i } else { a };
            let d = if b == i { j } else if b == j { i } else { b };
            assert(after[a] == before[c]);
            assert(after[b] == before[d]);
            assert(c != d);
        }
        assert forall|a: int| 0 <= a < after.len() implies (#[trigger] after[a]) < n by {
            let c = if a == i { j } else if a == j { i } else { a };
            assert(after[a] == before[c]);
        }
    }
}

/// The rows below `n` shuffled by `draws`.
pub fn shuffle(n: usize, draws: &[usize]) -> (order: Vec<usize>)
    requires
        valid_draws(n as nat, draws@),
    ensures
        order@ == shuffled(n as nat, draws@),
        permutes(order@, n as nat),
{
    let mut order: Vec<usize> = Vec::new();
    for i in 0..n
        invariant
            order@ == identity(n as nat).take(i as int),
    {
        order.push(i);
        assert(order@ =~= identity(n as nat).take(i + 1));
    }
    assert(draws@.take(0) =~= Seq::<usize>::empty());
    assert(order@ =~= shuffled(n as nat, draws@.take(0)));
    for step in 0..draws.len()
        invariant
            valid_draws(n as nat, draws@),
            order@.len() == n,
            order@ == shuffled(n as nat, draws@.take(step as int)),
    {
        let i: usize = n - 1 - step;
        let j: usize = draws[step];
        assert(draws@.take(step + 1).drop_last() =~= draws@.take(step as int));
        let at_i: usize = order[i];
        let at_j: usize = order[j];
        order.set(i, at_j);
        order.set(j, at_i);
    }
    assert(draws@.take(draws@.len() as int) =~= draws@);
    proof {
        shuffling_permutes(n as nat, draws@);
    }
    order
}

/// Whether `states` lead from the numbers below `n` in ascending order to
/// `order`, each from the one before it by exchanging the last place not yet
/// settled with the place drawn for it, every other place kept.
pub open spec fn exchanged_in_turn(
    n: nat,
    draws: Seq<usize>,
    states: Seq<Seq<usize>>,
    order: Seq<usize>,
) -> bool {
    &&& states.len() == draws.len() + 1
    &&& states[0].len() == n
    &&& forall|i: int| 0 <= i < n ==> #[trigger] states[0][i] == i
    &&& states.last() == order
    &&& forall|s: int|
        0 <= s < draws.len() ==> swapped(
            #[trigger] states[s],
            states[s + 1],
            n - 1 - s,
            draws[s] as int,
        )
}

/// Whether `after` is `before` with places `i` and `j` exchanged.
pub open spec fn swapped(before: Seq<usize>, after: Seq<usize>, i: int, j: int) -> bool {
    &&& after.len() == before.len()
    &&& after[i] == before[j]
    &&& after[j] == before[i]
    &&& forall|p: int|
        0 <= p < before.len() && p != i && p != j ==> #[trigger] after[p] == before[p]
}

proof fn lemma_exchanged_in_turn(n: nat, draws: Seq<usize>) -> (states: Seq<Seq<usize>>)
    requires
        n <= usize::MAX,
        draws.len() < n,
        forall|i: int| 0 <= i < draws.len() ==> (#[trigger] draws[i]) < n - i,
    ensures
        exchanged_in_turn(n, draws, states, shuffled(n, draws)),
        states.last().len() == n,
    decreases draws.len(),
{
    if draws.len() == 0 {
        let states = seq![identity(n)];
        states
    } else {
        let rest = draws.drop_last();
        assert forall|i: int| 0 <= i < rest.len() implies (#[trigger] rest[i]) < n - i by {
            assert(rest[i] == draws[i]);
        }
        let before = lemma_exchanged_in_turn(n, rest);
        let states = before.push(shuffled(n, draws));
        assert forall|s: int| 0 <= s < draws.len() implies swapped(
            #[trigger] states[s],
            states[s + 1],
            n - 1 - s,
            draws[s] as int,
        ) by {
            assert(states[s] == before[s]);
            if s < rest.len() {
                assert(states[s + 1] == before[s + 1]);
                assert(rest[s] == draws[s]);
            } else {
                assert(draws[s] < n - s);
            }
        }
        states
    }
}

/// Shuffling starts from the rows in order and exchanges the places from the
/// last down to the second, each with the place drawn for it.
pub proof fn shuffling_exchanges_in_turn(n: usize, draws: &[usize], order: Vec<usize>)
    requires
        valid_draws(n as nat, draws@),
        call_ensures(shuffle, (n, draws), order),
    ensures
        exists|states: Seq<Seq<usize>>| #[trigger]
            exchanged_in_turn(n as nat, draws@, states, order@),
{
    let states = lemma_exchanged_in_turn(n as nat, draws@);
}

} // verus!
