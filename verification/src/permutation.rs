//! All orderings of `0..n`, produced by swaps in one working row: each
//! ordering differs from the one before it by a single exchange.

use crate::permutation_proofs::{
    lemma_factorial_grows, lemma_permutations, lemma_permutations_complete,
    lemma_permutations_neighbours,
};
use crate::views::{iota, lemma_rows_push, nats, rows};
use vstd::prelude::*;

verus! {

/// The factorial of `n`.
pub open spec fn factorial(n: nat) -> nat
    decreases n,
{
    if n == 0 {
        1
    } else {
        n * factorial((n - 1) as nat)
    }
}

/// An upper bound on `n!` in a machine word, for sizing a table of
/// orderings: `n!` itself where it fits, else the largest word.
pub fn factorial_upper_bound(n: usize) -> (bound: usize)
    ensures
        factorial(n as nat) <= usize::MAX ==> bound == factorial(n as nat),
        factorial(n as nat) > usize::MAX ==> bound == usize::MAX,
{
    let mut bound: usize = 1;
    let mut done: usize = 0;
    while done < n
        invariant
            done <= n,
            bound == factorial(done as nat),
        decreases n - done,
    {
        assert(factorial((done + 1) as nat) == (done + 1) * factorial(done as nat));
        match bound.checked_mul(done + 1) {
            Some(next) => {
                assert(bound * (done + 1) == (done + 1) * bound) by (nonlinear_arith);
                bound = next;
            },
            None => {
                proof {
                    assert(bound * (done + 1) == (done + 1) * bound) by (nonlinear_arith);
                    lemma_factorial_grows((done + 1) as nat, n as nat);
                }
                return usize::MAX;
            },
        }
        done += 1;
    }
    bound
}

/// The row `a` with the entries at `i` and `j` exchanged.
pub open spec fn exchanged(a: Seq<nat>, i: int, j: int) -> Seq<nat> {
    a.update(i, a[j]).update(j, a[i])
}

/// The exchange that opens round `j >= 1` of a run over the first `k`
/// entries: for even `k` the entry `j - 1` goes to the end of the run, for
/// odd `k` the first entry does.
pub open spec fn turned(k: nat, j: nat, a: Seq<nat>) -> Seq<nat> {
    if k % 2 == 0 {
        exchanged(a, j - 1, k - 1)
    } else {
        exchanged(a, 0, k - 1)
    }
}

/// The working row after a run over its first `k` entries.
pub open spec fn row_after(k: nat, a: Seq<nat>) -> Seq<nat>
    decreases k, k,
{
    if k <= 1 {
        a
    } else {
        row_at(k, (k - 1) as nat, a)
    }
}

/// The working row after the opening run over `k - 1` entries and `j`
/// rounds, each an exchange and a run over `k - 1` entries.
pub open spec fn row_at(k: nat, j: nat, a: Seq<nat>) -> Seq<nat>
    decreases k, j,
{
    if k == 0 {
        a
    } else if j == 0 {
        row_after((k - 1) as nat, a)
    } else {
        row_after((k - 1) as nat, turned(k, j, row_at(k, (j - 1) as nat, a)))
    }
}

/// The rows that a run over the first `k` entries of `a` gives out, in
/// order.
pub open spec fn rows_after(k: nat, a: Seq<nat>) -> Seq<Seq<nat>>
    decreases k, k,
{
    if k <= 1 {
        seq![a]
    } else {
        rows_at(k, (k - 1) as nat, a)
    }
}

/// The rows given out by the opening run over `k - 1` entries and by `j`
/// rounds after it.
pub open spec fn rows_at(k: nat, j: nat, a: Seq<nat>) -> Seq<Seq<nat>>
    decreases k, j,
{
    if k == 0 {
        seq![a]
    } else if j == 0 {
        rows_after((k - 1) as nat, a)
    } else {
        rows_at(k, (j - 1) as nat, a) + rows_after(
            (k - 1) as nat,
            turned(k, j, row_at(k, (j - 1) as nat, a)),
        )
    }
}

/// A row is an ordering of `0..n` when it has `n` entries, all below `n`,
/// no two of them equal.
pub open spec fn is_ordering(row: Seq<nat>, n: nat) -> bool {
    &&& row.len() == n
    &&& forall|i: int| 0 <= i < row.len() ==> row[i] < n
    &&& forall|i: int, j: int| 0 <= i < j < row.len() ==> row[i] != row[j]
}

/// `next` is `row` with two of its entries exchanged.
pub open spec fn one_exchange_apart(row: Seq<nat>, next: Seq<nat>) -> bool {
    exists|i: int, j: int| 0 <= i < j < row.len() && next == #[trigger] exchanged(row, i, j)
}

/// The orderings of `0..n` in the order in which they are produced.
pub open spec fn permutations(n: nat) -> Seq<Seq<nat>> {
    rows_after(n, iota(n))
}

/// Exchanges two entries of a row.
fn swap_entries(a: &mut Vec<usize>, i: usize, j: usize)
    requires
        i < old(a)@.len(),
        j < old(a)@.len(),
    ensures
        final(a)@.len() == old(a)@.len(),
        nats(final(a)@) == exchanged(nats(old(a)@), i as int, j as int),
{
    let first = a[i];
    let second = a[j];
    a[i] = second;
    a[j] = first;
    assert(nats(a@) =~= exchanged(nats(old(a)@), i as int, j as int));
}

/// A copy of an index row.
fn copy_row(a: &Vec<usize>) -> (copy: Vec<usize>)
    ensures
        copy@ == a@,
{
    let copy = a.clone();
    assert(copy@ =~= a@);
    copy
}

/// Runs over the first `k` entries of `a`: gives out every ordering of
/// them, the rest of the row standing still, and leaves `a` as the last
/// exchange left it.
pub fn inner_generate_permutations(k: usize, a: &mut Vec<usize>, output: &mut Vec<Vec<usize>>)
    requires
        1 <= k <= old(a)@.len(),
    ensures
        final(a)@.len() == old(a)@.len(),
        nats(final(a)@) == row_after(k as nat, nats(old(a)@)),
        rows(final(output)@) == rows(old(output)@) + rows_after(k as nat, nats(old(a)@)),
    decreases k,
{
    if k == 1 {
        let row = copy_row(a);
        proof {
            lemma_rows_push(output@, row);
            assert(rows(output@).push(nats(a@)) =~= rows(output@) + seq![nats(a@)]);
        }
        output.push(row);
        return ;
    }
    let ghost start = nats(a@);
    let ghost given = rows(output@);
    inner_generate_permutations(k - 1, a, output);
    for i in 0..(k - 1)
        invariant
            2 <= k <= a@.len(),
            start.len() == a@.len(),
            nats(a@) == row_at(k as nat, i as nat, start),
            rows(output@) == given + rows_at(k as nat, i as nat, start),
    {
        if k % 2 == 0 {
            swap_entries(a, i, k - 1);
        } else {
            swap_entries(a, 0, k - 1);
        }
        inner_generate_permutations(k - 1, a, output);
        proof {
            let before = rows_at(k as nat, i as nat, start);
            let round = rows_after(
                (k - 1) as nat,
                turned(k as nat, (i + 1) as nat, row_at(k as nat, i as nat, start)),
            );
            assert(given + (before + round) =~= (given + before) + round);
        }
    }
}

/// Every ordering of `0..n`, for `n >= 1`, each once, in the order of the
/// exchange scheme: there are `n!` of them, and each is the one before it
/// with two entries exchanged.
pub fn generate_permutations(n: usize) -> (output: Vec<Vec<usize>>)
    requires
        n >= 1,
    ensures
        rows(output@) == permutations(n as nat),
        output@.len() == factorial(n as nat),
        forall|i: int| 0 <= i < output@.len() ==> is_ordering(#[trigger] rows(output@)[i], n as nat),
        forall|i: int, j: int| 0 <= i < j < output@.len() ==> rows(output@)[i] != rows(output@)[j],
        forall|row: Seq<nat>| is_ordering(row, n as nat) ==> #[trigger] rows(output@).contains(row),
        forall|i: int|
            0 <= i && i + 1 < output@.len() ==> one_exchange_apart(
                #[trigger] rows(output@)[i],
                rows(output@)[i + 1],
            ),
{
    let mut output: Vec<Vec<usize>> = Vec::new();
    let _ = output.try_reserve(factorial_upper_bound(n));
    let mut identity: Vec<usize> = Vec::new();
    let mut i: usize = 0;
    while i < n
        invariant
            i <= n,
            identity@.len() == i,
            forall|j: int| 0 <= j < i ==> identity@[j] == j,
        decreases n - i,
    {
        identity.push(i);
        i += 1;
    }
    assert(nats(identity@) =~= iota(n as nat));
    assert(rows(output@) =~= Seq::<Seq<nat>>::empty());
    inner_generate_permutations(n, &mut identity, &mut output);
    proof {
        assert(Seq::<Seq<nat>>::empty() + permutations(n as nat) =~= permutations(n as nat));
        lemma_permutations(n as nat);
        assert forall|row: Seq<nat>| is_ordering(row, n as nat) implies #[trigger] permutations(
            n as nat,
        ).contains(row) by {
            lemma_permutations_complete(n as nat, row);
        }
        assert forall|i: int| 0 <= i && i + 1 < permutations(n as nat).len() implies one_exchange_apart(
            #[trigger] permutations(n as nat)[i],
            permutations(n as nat)[i + 1],
        ) by {
            lemma_permutations_neighbours(n as nat, i);
        }
    }
    output
}

} // verus!
