//! Combinations of `k` indices out of `n`, computed by Pascal's rule and
//! remembered between queries.

use crate::combinator_proofs::{
    lemma_all_combos_count, lemma_combos_ascend, lemma_combos_complete, lemma_combos_count,
    lemma_combos_rows,
};
use crate::sizes::{power, saturating_power};
use crate::views::{iota, lemma_nats_push, lemma_rows_add, lemma_rows_push, nats, rows};
use std::collections::HashMap;
use vstd::prelude::*;
use vstd::std_specs::hash::group_hash_axioms;

verus! {

broadcast use group_hash_axioms;

/// The binomial coefficient "`n` choose `k`".
pub open spec fn binomial(n: nat, k: nat) -> nat
    decreases n,
{
    if k == 0 {
        1
    } else if n == 0 {
        0
    } else {
        binomial((n - 1) as nat, (k - 1) as nat) + binomial((n - 1) as nat, k)
    }
}

/// Every row of `table` with `last` appended to it.
pub open spec fn each_with(table: Seq<Seq<nat>>, last: nat) -> Seq<Seq<nat>> {
    Seq::new(table.len(), |i: int| table[i].push(last))
}

/// The combinations of `k` indices out of `0..n`, each ascending, in the
/// order of Pascal's rule: first those that leave `n - 1` out, then those
/// that end in `n - 1`.
pub open spec fn combos(n: nat, k: nat) -> Seq<Seq<nat>>
    decreases n,
{
    if k > n {
        Seq::empty()
    } else if k == 0 {
        seq![Seq::empty()]
    } else if k == n {
        seq![iota(n)]
    } else {
        combos((n - 1) as nat, k) + each_with(
            combos((n - 1) as nat, (k - 1) as nat),
            (n - 1) as nat,
        )
    }
}

/// The combinations of `0..n` of the sizes `0, 1, .., m`, one size after
/// the other.
pub open spec fn combos_up_to(n: nat, m: nat) -> Seq<Seq<nat>>
    decreases m,
{
    if m == 0 {
        combos(n, 0)
    } else {
        combos_up_to(n, (m - 1) as nat) + combos(n, m)
    }
}

/// All combinations of `0..n`, by ascending size.
pub open spec fn all_combos(n: nat) -> Seq<Seq<nat>> {
    combos_up_to(n, n)
}

/// A row is a combination out of `0..n` when it ascends strictly and stays
/// below `n`.
pub open spec fn is_combination(row: Seq<nat>, n: nat) -> bool {
    &&& forall|i: int| 0 <= i < row.len() ==> row[i] < n
    &&& forall|i: int, j: int| 0 <= i < j < row.len() ==> row[i] < row[j]
}

/// The key under which the pair `(n, k)` is remembered: `n` in the upper
/// half of the word, `k` in the lower half.
pub open spec fn pair_key(n: nat, k: nat) -> u128 {
    (n * 0x1_0000_0000_0000_0000 + k) as u128
}

/// The `n` of the pair that a key stands for.
pub open spec fn key_n(key: u128) -> nat {
    (key / 0x1_0000_0000_0000_0000) as nat
}

/// The `k` of the pair that a key stands for.
pub open spec fn key_k(key: u128) -> nat {
    (key % 0x1_0000_0000_0000_0000) as nat
}

/// `first` comes before `second` when the rows are compared from their
/// last entries backwards: where they last differ, `first` is lower.
pub open spec fn precedes_from_the_end(first: Seq<nat>, second: Seq<nat>) -> bool {
    exists|at: int| differ_last_at(first, second, at)
}

/// `first` and `second` are of one length and agree after place `at`,
/// where `first` is lower.
pub open spec fn differ_last_at(first: Seq<nat>, second: Seq<nat>, at: int) -> bool {
    &&& first.len() == second.len()
    &&& 0 <= at < first.len()
    &&& first[at] < second[at]
    &&& forall|s: int| at < s < first.len() ==> first[s] == second[s]
}

/// What a memo of pairs holds after `combos(n, k)` was asked for: nothing
/// new when `k > n` or the pair was known; otherwise the pair itself and
/// whatever Pascal's rule had to ask for on the way.
pub open spec fn memo_after(memo: Set<(nat, nat)>, n: nat, k: nat) -> Set<(nat, nat)>
    decreases n,
{
    if k > n || memo.contains((n, k)) {
        memo
    } else if k == 0 || k == n {
        memo.insert((n, k))
    } else {
        memo_after(memo_after(memo, (n - 1) as nat, k), (n - 1) as nat, (k - 1) as nat).insert(
            (n, k),
        )
    }
}

/// What a memo of pairs holds after `combos(n, 0)`, .., `combos(n, m)` were
/// asked for in this order.
pub open spec fn memo_sweep(memo: Set<(nat, nat)>, n: nat, m: nat) -> Set<(nat, nat)>
    decreases m,
{
    if m == 0 {
        memo_after(memo, n, 0)
    } else {
        memo_after(memo_sweep(memo, n, (m - 1) as nat), n, m)
    }
}

/// A generator of combinations that remembers every answer it has given.
pub struct Combinator {
    nk_lookup_table: HashMap<u128, Vec<Vec<usize>>>,
    all_lookup_table: HashMap<usize, Vec<Vec<usize>>>,
}

fn key_of(n: usize, k: usize) -> (key: u128)
    ensures
        key == pair_key(n as nat, k as nat),
{
    (n as u128) * 0x1_0000_0000_0000_0000u128 + (k as u128)
}

/// The row `0, 1, .., n - 1`.
fn ascending(n: usize) -> (row: Vec<usize>)
    ensures
        nats(row@) == iota(n as nat),
{
    let mut row: Vec<usize> = Vec::new();
    let mut i: usize = 0;
    while i < n
        invariant
            i <= n,
            row@.len() == i,
            forall|j: int| 0 <= j < i ==> row@[j] == j,
        decreases n - i,
    {
        row.push(i);
        i += 1;
    }
    assert(nats(row@) =~= iota(n as nat));
    row
}

/// A copy of a table of index rows.
fn copy_table(table: &Vec<Vec<usize>>) -> (copy: Vec<Vec<usize>>)
    ensures
        rows(copy@) == rows(table@),
{
    let copy = table.clone();
    assert forall|i: int| 0 <= i < table@.len() implies nats(copy@[i]@) == nats(table@[i]@) by {
        assert(cloned::<Vec<usize>>(table@[i], copy@[i]));
        assert(nats(copy@[i]@) =~= nats(table@[i]@));
    }
    assert(rows(copy@) =~= rows(table@));
    copy
}

impl Combinator {
    /// The pairs `(n, k)` whose combinations are remembered.
    pub closed spec fn cached_pairs(&self) -> Set<(nat, nat)> {
        Set::new(
            |p: (nat, nat)|
                p.0 <= usize::MAX && p.1 <= usize::MAX && self.nk_lookup_table@.contains_key(
                    pair_key(p.0, p.1),
                ),
        )
    }

    /// The sizes `n` for which the combinations of all sizes are remembered.
    pub closed spec fn cached_totals(&self) -> Set<nat> {
        Set::new(|n: nat| n <= usize::MAX && self.all_lookup_table@.contains_key(n as usize))
    }

    /// Whatever is remembered is right.
    #[verifier::type_invariant]
    spec fn sound(&self) -> bool {
        &&& forall|key: u128| #[trigger]
            self.nk_lookup_table@.contains_key(key) ==> rows(self.nk_lookup_table@[key]@)
                == combos(key_n(key), key_k(key))
        &&& forall|n: usize| #[trigger]
            self.all_lookup_table@.contains_key(n) ==> rows(self.all_lookup_table@[n]@)
                == all_combos(n as nat)
    }

    /// A generator that remembers nothing yet.
    pub fn new() -> (fresh: Combinator)
        ensures
            fresh.cached_pairs() == Set::<(nat, nat)>::empty(),
            fresh.cached_totals() == Set::<nat>::empty(),
    {
        let fresh = Combinator { nk_lookup_table: HashMap::new(), all_lookup_table: HashMap::new() };
        assert(fresh.cached_pairs() =~= Set::<(nat, nat)>::empty());
        assert(fresh.cached_totals() =~= Set::<nat>::empty());
        fresh
    }

    /// Whether the combinations of `k` out of `n` are remembered.
    pub fn remembers(&self, n: usize, k: usize) -> (known: bool)
        ensures
            known == self.cached_pairs().contains((n as nat, k as nat)),
    {
        let key = key_of(n, k);
        self.nk_lookup_table.contains_key(&key)
    }

    /// Whether the combinations of all sizes out of `n` are remembered.
    pub fn remembers_all(&self, n: usize) -> (known: bool)
        ensures
            known == self.cached_totals().contains(n as nat),
    {
        self.all_lookup_table.contains_key(&n)
    }

    /// The combinations of `k` indices out of `0..n`, in the order of
    /// Pascal's rule. An answer for `k <= n` is remembered; for `k > n` the
    /// answer is empty and nothing is remembered.
    pub fn combinations(&mut self, n: usize, k: usize) -> (out: Vec<Vec<usize>>)
        ensures
            rows(out@) == combos(n as nat, k as nat),
            out@.len() == binomial(n as nat, k as nat),
            k > n ==> out@.len() == 0,
            forall|i: int|
                0 <= i < out@.len() ==> (#[trigger] rows(out@)[i]).len() == k && is_combination(
                    rows(out@)[i],
                    n as nat,
                ),
            forall|row: Seq<nat>|
                row.len() == k && is_combination(row, n as nat) ==> #[trigger] rows(out@).contains(
                    row,
                ),
            forall|i: int, j: int|
                0 <= i < j < out@.len() ==> precedes_from_the_end(
                    #[trigger] rows(out@)[i],
                    #[trigger] rows(out@)[j],
                ),
            final(self).cached_pairs() == memo_after(old(self).cached_pairs(), n as nat, k as nat),
            k > n ==> final(self).cached_pairs() == old(self).cached_pairs(),
            final(self).cached_totals() == old(self).cached_totals(),
        decreases n,
    {
        proof {
            use_type_invariant(&*self);
            lemma_combos_count(n as nat, k as nat);
            assert forall|i: int| 0 <= i < combos(n as nat, k as nat).len() implies (
            #[trigger] combos(n as nat, k as nat)[i]).len() == k && is_combination(
                combos(n as nat, k as nat)[i],
                n as nat,
            ) by {
                lemma_combos_rows(n as nat, k as nat, i);
            }
            assert forall|row: Seq<nat>|
                row.len() == k && is_combination(row, n as nat) implies #[trigger] combos(
                n as nat,
                k as nat,
            ).contains(row) by {
                lemma_combos_complete(n as nat, k as nat, row);
            }
            assert forall|i: int, j: int|
                0 <= i < j < combos(n as nat, k as nat).len() implies precedes_from_the_end(
                #[trigger] combos(n as nat, k as nat)[i],
                #[trigger] combos(n as nat, k as nat)[j],
            ) by {
                lemma_combos_ascend(n as nat, k as nat, i, j);
            }
        }
        if k > n {
            let out: Vec<Vec<usize>> = Vec::new();
            assert(rows(out@) =~= combos(n as nat, k as nat));
            return out;
        }
        let key = key_of(n, k);
        if let Some(combs) = self.nk_lookup_table.get(&key) {
            return copy_table(combs);
        }
        if k == 0 {
            let mut out: Vec<Vec<usize>> = Vec::new();
            out.push(Vec::new());
            assert(nats(out@[0]@) =~= Seq::<nat>::empty());
            assert(rows(out@) =~= seq![Seq::<nat>::empty()]);
            self.remember(n, k, &out);
            return out;
        }
        if k == n {
            let mut out: Vec<Vec<usize>> = Vec::new();
            out.push(ascending(n));
            assert(rows(out@) =~= seq![iota(n as nat)]);
            self.remember(n, k, &out);
            return out;
        }
        let mut out = self.combinations(n - 1, k);
        let smaller = self.combinations(n - 1, k - 1);
        let ghost left = rows(out@);
        let ghost right = rows(smaller@);
        for comb in it: smaller.into_iter()
            invariant
                0 < n,
                rows(it.seq()) == right,
                rows(out@) == left + each_with(right, (n - 1) as nat).take(it.index()),
        {
            let ghost before = out@;
            let ghost shorter = comb@;
            let mut comb = comb;
            comb.push(n - 1);
            out.push(comb);
            proof {
                lemma_nats_push(shorter, (n - 1) as usize);
                lemma_rows_push(before, comb);
                let longer = each_with(right, (n - 1) as nat);
                assert(nats(shorter) == right[it.index()]);
                assert(left + longer.take(it.index() + 1) =~= (left + longer.take(
                    it.index(),
                )).push(longer[it.index()]));
            }
        }
        assert(each_with(right, (n - 1) as nat).take(right.len() as int) =~= each_with(
            right,
            (n - 1) as nat,
        ));
        self.remember(n, k, &out);
        out
    }

    /// All combinations of `0..n`: those of size 0, then of size 1, and so
    /// on up to size `n`. The answer is remembered, and so is the answer
    /// for each size that had to be asked for.
    pub fn all_combinations(&mut self, n: usize) -> (out: Vec<Vec<usize>>)
        ensures
            rows(out@) == all_combos(n as nat),
            out@.len() == power(2, n as nat),
            final(self).cached_totals() == old(self).cached_totals().insert(n as nat),
            final(self).cached_pairs() == if old(self).cached_totals().contains(n as nat) {
                old(self).cached_pairs()
            } else {
                memo_sweep(old(self).cached_pairs(), n as nat, n as nat)
            },
    {
        proof {
            use_type_invariant(&*self);
            lemma_all_combos_count(n as nat);
        }
        if let Some(combs) = self.all_lookup_table.get(&n) {
            assert(self.cached_totals() =~= old(self).cached_totals().insert(n as nat));
            return copy_table(combs);
        }
        let mut out: Vec<Vec<usize>> = Vec::new();
        let _ = out.try_reserve(saturating_power(2, n));
        let mut k: usize = 0;
        while k < n
            invariant
                k <= n,
                rows(out@) == if k == 0 {
                    Seq::<Seq<nat>>::empty()
                } else {
                    combos_up_to(n as nat, (k - 1) as nat)
                },
                self.cached_pairs() == if k == 0 {
                    old(self).cached_pairs()
                } else {
                    memo_sweep(old(self).cached_pairs(), n as nat, (k - 1) as nat)
                },
                self.cached_totals() == old(self).cached_totals(),
            decreases n - k,
        {
            let mut part = self.combinations(n, k);
            proof {
                lemma_rows_add(out@, part@);
            }
            out.append(&mut part);
            k += 1;
        }
        let mut part = self.combinations(n, n);
        proof {
            lemma_rows_add(out@, part@);
        }
        out.append(&mut part);
        self.remember_all(n, &out);
        out
    }

    /// Puts a copy of the answer for all sizes of `n` into the memo.
    fn remember_all(&mut self, n: usize, answer: &Vec<Vec<usize>>)
        requires
            rows(answer@) == all_combos(n as nat),
        ensures
            final(self).cached_pairs() == old(self).cached_pairs(),
            final(self).cached_totals() == old(self).cached_totals().insert(n as nat),
    {
        proof {
            use_type_invariant(&*self);
        }
        let copy = copy_table(answer);
        let mut table: HashMap<usize, Vec<Vec<usize>>> = HashMap::new();
        std::mem::swap(&mut table, &mut self.all_lookup_table);
        table.insert(n, copy);
        self.all_lookup_table = table;
        assert(self.cached_pairs() =~= old(self).cached_pairs());
        assert(self.cached_totals() =~= old(self).cached_totals().insert(n as nat));
    }

    /// Puts a copy of the answer for `(n, k)` into the memo.
    fn remember(&mut self, n: usize, k: usize, answer: &Vec<Vec<usize>>)
        requires
            k <= n,
            rows(answer@) == combos(n as nat, k as nat),
        ensures
            final(self).cached_pairs() == old(self).cached_pairs().insert((n as nat, k as nat)),
            final(self).cached_totals() == old(self).cached_totals(),
    {
        proof {
            use_type_invariant(&*self);
        }
        let copy = copy_table(answer);
        let key = key_of(n, k);
        let mut table: HashMap<u128, Vec<Vec<usize>>> = HashMap::new();
        std::mem::swap(&mut table, &mut self.nk_lookup_table);
        table.insert(key, copy);
        self.nk_lookup_table = table;
        assert(self.cached_pairs() =~= old(self).cached_pairs().insert((n as nat, k as nat)));
        assert(self.cached_totals() =~= old(self).cached_totals());
    }
}

} // verus!
