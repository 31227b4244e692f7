//! The combinations of `combinator` counted and characterised: there are
//! "`n` choose `k`" of them, they are the strictly ascending rows of `k`
//! indices below `n`, each listed once, and `2^n` over all sizes.

use crate::combinator::{
    all_combos, binomial, combos, combos_up_to, differ_last_at, is_combination,
    precedes_from_the_end,
};
use crate::sizes::power;
use crate::views::iota;
use vstd::prelude::*;

verus! {

/// There are "`n` choose `k`" combinations of `k` out of `n`; none when
/// `k` exceeds `n`.
pub proof fn lemma_combos_count(n: nat, k: nat)
    ensures
        combos(n, k).len() == binomial(n, k),
        k > n ==> combos(n, k).len() == 0,
    decreases n,
{
    if k > n {
        lemma_binomial_beyond(n, k);
    } else if k == 0 {
    } else if k == n {
        lemma_binomial_full(n);
    } else {
        lemma_combos_count((n - 1) as nat, k);
        lemma_combos_count((n - 1) as nat, (k - 1) as nat);
    }
}

/// Choosing more than there is cannot be done.
pub proof fn lemma_binomial_beyond(n: nat, k: nat)
    requires
        k > n,
    ensures
        binomial(n, k) == 0,
    decreases n,
{
    if n > 0 {
        lemma_binomial_beyond((n - 1) as nat, k);
        lemma_binomial_beyond((n - 1) as nat, (k - 1) as nat);
    }
}

/// Choosing everything can be done in one way.
pub proof fn lemma_binomial_full(n: nat)
    ensures
        binomial(n, n) == 1,
    decreases n,
{
    if n > 0 {
        lemma_binomial_full((n - 1) as nat);
        lemma_binomial_beyond((n - 1) as nat, n);
    }
}

/// Every row of `combos(n, k)` holds `k` strictly ascending indices below
/// `n`.
pub proof fn lemma_combos_rows(n: nat, k: nat, i: int)
    requires
        0 <= i < combos(n, k).len(),
    ensures
        combos(n, k)[i].len() == k,
        is_combination(combos(n, k)[i], n),
    decreases n,
{
    if k > n {
    } else if k == 0 {
    } else if k == n {
    } else {
        let left = combos((n - 1) as nat, k);
        let right = combos((n - 1) as nat, (k - 1) as nat);
        if i < left.len() {
            lemma_combos_rows((n - 1) as nat, k, i);
        } else {
            let j = i - left.len();
            lemma_combos_rows((n - 1) as nat, (k - 1) as nat, j);
            assert(combos(n, k)[i] == right[j].push((n - 1) as nat));
        }
    }
}

/// In a strictly ascending row, entries that lie apart differ by at least
/// the distance between them.
proof fn lemma_ascending_gap(row: Seq<nat>, i: int, j: int)
    requires
        forall|i: int, j: int| 0 <= i < j < row.len() ==> row[i] < row[j],
        0 <= i <= j < row.len(),
    ensures
        row[i] + (j - i) <= row[j],
    decreases j - i,
{
    if i < j {
        lemma_ascending_gap(row, i, j - 1);
    }
}

/// Every strictly ascending row of `k` indices below `n` is one of the
/// combinations of `k` out of `n`.
pub proof fn lemma_combos_complete(n: nat, k: nat, row: Seq<nat>)
    requires
        row.len() == k,
        is_combination(row, n),
    ensures
        combos(n, k).contains(row),
    decreases n,
{
    if k == 0 {
        assert(row =~= Seq::<nat>::empty());
        assert(combos(n, k)[0] == row);
    } else {
        lemma_ascending_gap(row, 0, k - 1);
        if k == n {
            assert forall|i: int| 0 <= i < k implies row[i] == i by {
                lemma_ascending_gap(row, 0, i);
                lemma_ascending_gap(row, i, k - 1);
            }
            assert(row =~= iota(n));
            assert(combos(n, k)[0] == row);
        } else {
            let left = combos((n - 1) as nat, k);
            let right = combos((n - 1) as nat, (k - 1) as nat);
            if row.last() == n - 1 {
                let shorter = row.drop_last();
                lemma_combos_complete((n - 1) as nat, (k - 1) as nat, shorter);
                let i = choose|i: int| 0 <= i < right.len() && right[i] == shorter;
                assert(shorter.push((n - 1) as nat) =~= row);
                assert(combos(n, k)[left.len() + i] == row);
            } else {
                lemma_combos_complete((n - 1) as nat, k, row);
                let i = choose|i: int| 0 <= i < left.len() && left[i] == row;
                assert(combos(n, k)[i] == row);
            }
        }
    }
}

/// The combinations ascend when compared from their last entries
/// backwards.
pub proof fn lemma_combos_ascend(n: nat, k: nat, i: int, j: int)
    requires
        0 <= i < j < combos(n, k).len(),
    ensures
        precedes_from_the_end(combos(n, k)[i], combos(n, k)[j]),
    decreases n,
{
    if k > n || k == 0 || k == n {
    } else {
        let left = combos((n - 1) as nat, k);
        let right = combos((n - 1) as nat, (k - 1) as nat);
        let last = (n - 1) as nat;
        if j < left.len() {
            lemma_combos_ascend((n - 1) as nat, k, i, j);
        } else if i >= left.len() {
            let x = i - left.len();
            let y = j - left.len();
            lemma_combos_ascend((n - 1) as nat, (k - 1) as nat, x, y);
            let at = choose|at: int| differ_last_at(right[x], right[y], at);
            assert(differ_last_at(right[x].push(last), right[y].push(last), at));
        } else {
            lemma_combos_rows((n - 1) as nat, k, i);
            lemma_combos_rows((n - 1) as nat, (k - 1) as nat, j - left.len());
            assert(differ_last_at(left[i], right[j - left.len()].push(last), k - 1));
        }
    }
}

/// No combination is listed twice.
pub proof fn lemma_combos_distinct(n: nat, k: nat, i: int, j: int)
    requires
        0 <= i < j < combos(n, k).len(),
    ensures
        combos(n, k)[i] != combos(n, k)[j],
{
    lemma_combos_ascend(n, k, i, j);
}

/// The binomial coefficients of `n` for the sizes `0..=m`, added up.
spec fn binomial_sum(n: nat, m: nat) -> nat
    decreases m,
{
    if m == 0 {
        binomial(n, 0)
    } else {
        binomial_sum(n, (m - 1) as nat) + binomial(n, m)
    }
}

proof fn lemma_binomial_sum_pascal(n: nat, m: nat)
    requires
        n > 0,
        m > 0,
    ensures
        binomial_sum(n, m) == binomial_sum((n - 1) as nat, m) + binomial_sum(
            (n - 1) as nat,
            (m - 1) as nat,
        ),
    decreases m,
{
    let above = (n - 1) as nat;
    assert(binomial(n, m) == binomial(above, (m - 1) as nat) + binomial(above, m));
    assert(binomial_sum(above, m) == binomial_sum(above, (m - 1) as nat) + binomial(above, m));
    if m > 1 {
        lemma_binomial_sum_pascal(n, (m - 1) as nat);
        assert(binomial_sum(above, (m - 1) as nat) == binomial_sum(above, (m - 2) as nat)
            + binomial(above, (m - 1) as nat));
    } else {
        assert(binomial_sum(n, 0) == 1);
        assert(binomial_sum(above, 0) == 1);
    }
}

proof fn lemma_binomial_sum_full(n: nat)
    ensures
        binomial_sum(n, n) == power(2, n),
    decreases n,
{
    if n > 0 {
        lemma_binomial_sum_pascal(n, n);
        lemma_binomial_beyond((n - 1) as nat, n);
        lemma_binomial_sum_full((n - 1) as nat);
    }
}

proof fn lemma_combos_up_to_count(n: nat, m: nat)
    ensures
        combos_up_to(n, m).len() == binomial_sum(n, m),
    decreases m,
{
    lemma_combos_count(n, m);
    if m > 0 {
        lemma_combos_up_to_count(n, (m - 1) as nat);
    }
}

/// A set of `n` indices has `2^n` combinations in all.
pub proof fn lemma_all_combos_count(n: nat)
    ensures
        all_combos(n).len() == power(2, n),
{
    lemma_combos_up_to_count(n, n);
    lemma_binomial_sum_full(n);
}

} // verus!
