//! Why the exchange scheme of `permutation` gives every ordering exactly
//! once.
//!
//! A run over `k` entries moves its entries in a fixed pattern, whatever
//! they are. The pattern of `exchange_pattern` is shown here to be the one
//! that the runs follow; it tells that the `k` rounds of a run end in `k`
//! different entries, and that every entry ends one of them.

use crate::exchange_pattern::{
    last_src, lemma_last_src_apart, lemma_round_of, lemma_round_src_first, lemma_round_src_last,
    lemma_round_src_range, lemma_round_src_step, lemma_run_src_range, lemma_run_src_still, pivot,
    round_of, round_src, run_src, turn_src,
};
use crate::permutation::{
    exchanged, factorial, is_ordering, one_exchange_apart, permutations, row_after, row_at,
    rows_after, rows_at, turned,
};
use crate::views::iota;
use vstd::prelude::*;

verus! {

/// The factorial is at least one and does not shrink as `n` grows.
pub proof fn lemma_factorial_grows(low: nat, high: nat)
    requires
        low <= high,
    ensures
        1 <= factorial(low) <= factorial(high),
    decreases high,
{
    if high == 0 {
    } else if low == high {
        lemma_factorial_grows((low - 1) as nat, (high - 1) as nat);
        assert(high * factorial((high - 1) as nat) >= 1) by (nonlinear_arith)
            requires
                high >= 1,
                factorial((high - 1) as nat) >= 1,
        ;
    } else {
        lemma_factorial_grows(low, (high - 1) as nat);
        assert(high * factorial((high - 1) as nat) >= factorial((high - 1) as nat))
            by (nonlinear_arith)
            requires
                high >= 1,
        ;
    }
}

/// The entries of `row` are below `bound` and differ from each other.
spec fn distinct_below(row: Seq<nat>, bound: nat) -> bool {
    &&& forall|i: int| 0 <= i < row.len() ==> row[i] < bound
    &&& forall|i: int, j: int| 0 <= i < j < row.len() ==> row[i] != row[j]
}

/// A run over `k` entries moves the entries of any row in the same way.
proof fn lemma_row_after(k: nat, a: Seq<nat>, bound: nat)
    requires
        k <= a.len(),
    ensures
        row_after(k, a).len() == a.len(),
        forall|p: int| 0 <= p < a.len() ==> row_after(k, a)[p] == a[run_src(k as int, p)],
        distinct_below(a, bound) ==> distinct_below(row_after(k, a), bound),
    decreases k, k,
{
    if k >= 2 {
        lemma_row_at(k, (k - 1) as nat, a, bound);
        assert forall|p: int| 0 <= p < a.len() implies row_after(k, a)[p] == a[run_src(
            k as int,
            p,
        )] by {
            lemma_round_src_last(k as int, p);
        }
    } else {
        assert forall|p: int| 0 <= p < a.len() implies row_after(k, a)[p] == a[run_src(
            k as int,
            p,
        )] by {
            lemma_run_src_still(k as int, p);
        }
    }
}

/// The opening run and `j` rounds move the entries of any row in the same
/// way.
proof fn lemma_row_at(k: nat, j: nat, a: Seq<nat>, bound: nat)
    requires
        1 <= k <= a.len(),
        j < k,
    ensures
        row_at(k, j, a).len() == a.len(),
        forall|p: int| 0 <= p < a.len() ==> row_at(k, j, a)[p] == a[round_src(k as int, j as int, p)],
        distinct_below(a, bound) ==> distinct_below(row_at(k, j, a), bound),
    decreases k, j,
{
    let below = (k - 1) as nat;
    if j == 0 {
        lemma_row_after(below, a, bound);
        assert forall|p: int| 0 <= p < a.len() implies row_at(k, j, a)[p] == a[round_src(
            k as int,
            j as int,
            p,
        )] by {
            lemma_round_src_first(k as int, p);
        }
    } else {
        let b = row_at(k, (j - 1) as nat, a);
        let c = turned(k, j, b);
        lemma_row_at(k, (j - 1) as nat, a, bound);
        assert(c == exchanged(b, pivot(k as int, j as int), k - 1));
        lemma_row_after(below, c, bound);
        assert forall|p: int| 0 <= p < a.len() implies row_at(k, j, a)[p] == a[round_src(
            k as int,
            j as int,
            p,
        )] by {
            let q = run_src(below as int, p);
            lemma_run_src_range(below as int, p);
            let r = turn_src(k as int, j as int, q);
            assert(row_after(below, c)[p] == c[q]);
            assert(c[q] == b[r]);
            assert(b[r] == a[round_src(k as int, j - 1, r)]);
            lemma_round_src_step(k as int, j as int, p);
        }
    }
}

/// Every row that a run over `k` entries gives out is the row it started
/// from, rearranged within the first `k` places.
proof fn lemma_rows_after(k: nat, a: Seq<nat>, bound: nat, i: int)
    requires
        k <= a.len(),
        0 <= i < rows_after(k, a).len(),
    ensures
        rows_after(k, a)[i].len() == a.len(),
        forall|p: int| k <= p < a.len() ==> rows_after(k, a)[i][p] == a[p],
        distinct_below(a, bound) ==> distinct_below(rows_after(k, a)[i], bound),
    decreases k, k,
{
    if k >= 2 {
        lemma_rows_at(k, (k - 1) as nat, a, bound, i);
    }
}

proof fn lemma_rows_at(k: nat, j: nat, a: Seq<nat>, bound: nat, i: int)
    requires
        1 <= k <= a.len(),
        j < k,
        0 <= i < rows_at(k, j, a).len(),
    ensures
        rows_at(k, j, a)[i].len() == a.len(),
        forall|p: int| k <= p < a.len() ==> rows_at(k, j, a)[i][p] == a[p],
        distinct_below(a, bound) ==> distinct_below(rows_at(k, j, a)[i], bound),
    decreases k, j,
{
    let below = (k - 1) as nat;
    if j == 0 {
        lemma_rows_after(below, a, bound, i);
    } else {
        let first = rows_at(k, (j - 1) as nat, a);
        let b = row_at(k, (j - 1) as nat, a);
        let c = turned(k, j, b);
        if i < first.len() {
            lemma_rows_at(k, (j - 1) as nat, a, bound, i);
        } else {
            lemma_row_at(k, (j - 1) as nat, a, bound);
            assert(c == exchanged(b, pivot(k as int, j as int), k - 1));
            assert forall|p: int| k <= p < a.len() implies c[p] == a[p] by {
                lemma_round_src_range(k as int, j - 1, p);
            }
            lemma_rows_after(below, c, bound, i - first.len());
        }
    }
}

/// A run over `k` entries gives out `k!` rows.
proof fn lemma_rows_after_count(k: nat, a: Seq<nat>)
    ensures
        rows_after(k, a).len() == factorial(k),
    decreases k, k,
{
    if k >= 2 {
        let done = (k - 1) as nat;
        lemma_rows_at_count(k, done, a);
        assert((done + 1) * factorial(done) == k * factorial(done)) by (nonlinear_arith)
            requires
                done + 1 == k,
        ;
    } else {
        assert(factorial(0) == 1);
        assert(factorial(1) == 1 * factorial(0));
    }
}

proof fn lemma_rows_at_count(k: nat, j: nat, a: Seq<nat>)
    requires
        1 <= k,
        j < k,
    ensures
        rows_at(k, j, a).len() == (j + 1) * factorial((k - 1) as nat),
    decreases k, j,
{
    let below = (k - 1) as nat;
    let f = factorial(below);
    if j == 0 {
        lemma_rows_after_count(below, a);
        assert((j + 1) * f == f) by (nonlinear_arith)
            requires
                j == 0,
        ;
    } else {
        let done = (j - 1) as nat;
        lemma_rows_at_count(k, done, a);
        lemma_rows_after_count(below, turned(k, j, row_at(k, done, a)));
        assert((done + 1) * f + f == (j + 1) * f) by (nonlinear_arith)
            requires
                done + 1 == j,
        ;
    }
}

/// A run over `k` different entries gives out no row twice.
proof fn lemma_rows_after_apart(k: nat, a: Seq<nat>, bound: nat)
    requires
        k <= a.len(),
        distinct_below(a, bound),
    ensures
        forall|x: int, y: int|
            0 <= x < y < rows_after(k, a).len() ==> rows_after(k, a)[x] != rows_after(k, a)[y],
    decreases k, k,
{
    if k >= 2 {
        lemma_rows_at_apart(k, (k - 1) as nat, a, bound);
        assert(rows_after(k, a) == rows_at(k, (k - 1) as nat, a));
    } else {
        assert(rows_after(k, a).len() == 1);
    }
}

/// The rows of the opening run and of `j` rounds differ from each other,
/// and none of them ends its first `k` places in an entry that a later
/// round puts there.
proof fn lemma_rows_at_apart(k: nat, j: nat, a: Seq<nat>, bound: nat)
    requires
        1 <= k <= a.len(),
        j < k,
        distinct_below(a, bound),
    ensures
        forall|x: int, y: int|
            0 <= x < y < rows_at(k, j, a).len() ==> rows_at(k, j, a)[x] != rows_at(k, j, a)[y],
        forall|x: int, t: int|
            #![trigger rows_at(k, j, a)[x], last_src(k as int, t)]
            0 <= x < rows_at(k, j, a).len() && j < t < k ==> rows_at(k, j, a)[x][k - 1] != a[last_src(
                k as int,
                t,
            )],
    decreases k, j,
{
    let below = (k - 1) as nat;
    let all = rows_at(k, j, a);
    if j == 0 {
        assert(all == rows_after(below, a));
        lemma_rows_after_apart(below, a, bound);
        assert forall|x: int, t: int|
            #![trigger all[x], last_src(k as int, t)]
            0 <= x < all.len() && j < t < k implies all[x][k - 1] != a[last_src(k as int, t)] by {
            lemma_rows_after(below, a, bound, x);
            lemma_last_src_apart(k as int, 0, t);
            assert(rows_after(below, a)[x][k - 1] == a[k - 1]);
            assert(last_src(k as int, 0) == k - 1);
            assert(a[last_src(k as int, t)] != a[k - 1]);
        }
    } else {
        let first = rows_at(k, (j - 1) as nat, a);
        let b = row_at(k, (j - 1) as nat, a);
        let c = turned(k, j, b);
        let second = rows_after(below, c);
        lemma_rows_at_apart(k, (j - 1) as nat, a, bound);
        lemma_row_at(k, (j - 1) as nat, a, bound);
        assert(c == exchanged(b, pivot(k as int, j as int), k - 1));
        lemma_rows_after_apart(below, c, bound);
        assert(all == first + second);
        assert forall|y: int| 0 <= y < second.len() implies (#[trigger] second[y])[k - 1] == a[last_src(
            k as int,
            j as int,
        )] by {
            lemma_rows_after(below, c, bound, y);
            let q = pivot(k as int, j as int);
            assert(second[y][k - 1] == c[k - 1]);
            assert(c[k - 1] == b[q]);
            assert(b[q] == a[round_src(k as int, j - 1, q)]);
        }
        assert forall|x: int, y: int| 0 <= x < y < all.len() implies all[x] != all[y] by {
            if y < first.len() {
            } else if x >= first.len() {
                assert(all[x] == second[x - first.len()]);
                assert(all[y] == second[y - first.len()]);
            } else {
                assert(all[x] == first[x]);
                assert(all[y] == second[y - first.len()]);
                assert(first[x][k - 1] != a[last_src(k as int, j as int)]);
            }
        }
        assert forall|x: int, t: int|
            #![trigger all[x], last_src(k as int, t)]
            0 <= x < all.len() && j < t < k implies all[x][k - 1] != a[last_src(k as int, t)] by {
            if x < first.len() {
                assert(all[x] == first[x]);
            } else {
                assert(all[x] == second[x - first.len()]);
                lemma_last_src_apart(k as int, j as int, t);
            }
        }
    }
}

/// A run begins by giving out the row as it found it, and the last row
/// that it gives out is the row as it leaves it.
proof fn lemma_rows_after_ends(k: nat, a: Seq<nat>)
    ensures
        rows_after(k, a).len() > 0,
        rows_after(k, a).first() == a,
        rows_after(k, a).last() == row_after(k, a),
    decreases k, k,
{
    if k >= 2 {
        lemma_rows_at_ends(k, (k - 1) as nat, a);
    }
}

proof fn lemma_rows_at_ends(k: nat, j: nat, a: Seq<nat>)
    requires
        1 <= k,
    ensures
        rows_at(k, j, a).len() > 0,
        rows_at(k, j, a).first() == a,
        rows_at(k, j, a).last() == row_at(k, j, a),
    decreases k, j,
{
    let below = (k - 1) as nat;
    if j == 0 {
        lemma_rows_after_ends(below, a);
    } else {
        lemma_rows_at_ends(k, (j - 1) as nat, a);
        lemma_rows_after_ends(below, turned(k, j, row_at(k, (j - 1) as nat, a)));
    }
}

/// Each row that a run gives out is the row before it with two entries
/// exchanged.
proof fn lemma_rows_after_neighbours(k: nat, a: Seq<nat>, i: int)
    requires
        k <= a.len(),
        0 <= i,
        i + 1 < rows_after(k, a).len(),
    ensures
        one_exchange_apart(rows_after(k, a)[i], rows_after(k, a)[i + 1]),
    decreases k, k,
{
    if k >= 2 {
        lemma_rows_at_neighbours(k, (k - 1) as nat, a, i);
    }
}

proof fn lemma_rows_at_neighbours(k: nat, j: nat, a: Seq<nat>, i: int)
    requires
        1 <= k <= a.len(),
        j < k,
        0 <= i,
        i + 1 < rows_at(k, j, a).len(),
    ensures
        one_exchange_apart(rows_at(k, j, a)[i], rows_at(k, j, a)[i + 1]),
    decreases k, j,
{
    let below = (k - 1) as nat;
    if j == 0 {
        lemma_rows_after_neighbours(below, a, i);
    } else {
        let first = rows_at(k, (j - 1) as nat, a);
        let b = row_at(k, (j - 1) as nat, a);
        let c = turned(k, j, b);
        let second = rows_after(below, c);
        lemma_row_at(k, (j - 1) as nat, a, 0);
        assert(c == exchanged(b, pivot(k as int, j as int), k - 1));
        if i + 1 < first.len() {
            lemma_rows_at_neighbours(k, (j - 1) as nat, a, i);
        } else if i >= first.len() {
            lemma_rows_after_neighbours(below, c, i - first.len());
        } else {
            lemma_rows_at_ends(k, (j - 1) as nat, a);
            lemma_rows_after_ends(below, c);
            assert(rows_at(k, j, a)[i] == b);
            assert(rows_at(k, j, a)[i + 1] == c);
        }
    }
}

/// Each row of `permutations(n)` is the row before it with two entries
/// exchanged: the rows are reached by `n! - 1` exchanges.
pub proof fn lemma_permutations_neighbours(n: nat, i: int)
    requires
        0 <= i,
        i + 1 < permutations(n).len(),
    ensures
        one_exchange_apart(permutations(n)[i], permutations(n)[i + 1]),
{
    lemma_rows_after_neighbours(n, iota(n), i);
}

/// `v` stands among the first `k` entries of `row`.
spec fn stands_in(row: Seq<nat>, k: nat, v: nat) -> bool {
    exists|x: int| 0 <= x < k && #[trigger] row[x] == v
}

/// Every one of the first `k` entries of `a` stands among the first `k`
/// entries of `row`.
spec fn covers(row: Seq<nat>, a: Seq<nat>, k: nat) -> bool {
    forall|q: int| 0 <= q < k ==> #[trigger] stands_in(row, k, a[q])
}

/// A run over `k` entries keeps them among the first `k` places.
proof fn lemma_covers_after(k: nat, a: Seq<nat>)
    requires
        k <= a.len(),
    ensures
        covers(row_after(k, a), a, k),
    decreases k, k,
{
    if k >= 2 {
        lemma_covers_at(k, (k - 1) as nat, a);
    } else {
        assert forall|q: int| 0 <= q < k implies #[trigger] stands_in(row_after(k, a), k, a[q]) by {
            assert(row_after(k, a)[q] == a[q]);
        }
    }
}

proof fn lemma_covers_at(k: nat, j: nat, a: Seq<nat>)
    requires
        1 <= k <= a.len(),
        j < k,
    ensures
        covers(row_at(k, j, a), a, k),
    decreases k, j,
{
    let below = (k - 1) as nat;
    let d = row_at(k, j, a);
    if j == 0 {
        lemma_covers_after(below, a);
        lemma_row_after(below, a, 0);
        lemma_run_src_range(below as int, k - 1);
        assert forall|q: int| 0 <= q < k implies #[trigger] stands_in(d, k, a[q]) by {
            if q < below {
                assert(stands_in(d, below, a[q]));
                let x = choose|x: int| 0 <= x < below && #[trigger] d[x] == a[q];
                assert(d[x] == a[q]);
            } else {
                assert(d[k - 1] == a[q]);
            }
        }
    } else {
        let b = row_at(k, (j - 1) as nat, a);
        let c = turned(k, j, b);
        let mid = pivot(k as int, j as int);
        lemma_covers_at(k, (j - 1) as nat, a);
        lemma_row_at(k, (j - 1) as nat, a, 0);
        assert(c == exchanged(b, mid, k - 1));
        lemma_covers_after(below, c);
        lemma_row_after(below, c, 0);
        lemma_run_src_range(below as int, k - 1);
        assert forall|q: int| 0 <= q < k implies #[trigger] stands_in(d, k, a[q]) by {
            assert(stands_in(b, k, a[q]));
            let x = choose|x: int| 0 <= x < k && #[trigger] b[x] == a[q];
            let y = turn_src(k as int, j as int, x);
            assert(c[y] == b[x]);
            if y == k - 1 {
                assert(d[k - 1] == a[q]);
            } else {
                assert(stands_in(d, below, c[y]));
                let z = choose|z: int| 0 <= z < below && #[trigger] d[z] == c[y];
                assert(d[z] == a[q]);
            }
        }
    }
}

/// The row as round `j` of a run over `k` entries finds it after its
/// exchange.
spec fn opened(k: nat, j: nat, a: Seq<nat>) -> Seq<nat> {
    if j == 0 {
        a
    } else {
        turned(k, j, row_at(k, (j - 1) as nat, a))
    }
}

proof fn lemma_opened(k: nat, j: nat, a: Seq<nat>, bound: nat)
    requires
        1 <= k <= a.len(),
        j < k,
        distinct_below(a, bound),
    ensures
        opened(k, j, a).len() == a.len(),
        forall|p: int| k <= p < a.len() ==> opened(k, j, a)[p] == a[p],
        0 <= last_src(k as int, j as int) < k,
        opened(k, j, a)[k - 1] == a[last_src(k as int, j as int)],
        distinct_below(opened(k, j, a), bound),
        covers(opened(k, j, a), a, k),
{
    let c = opened(k, j, a);
    if j == 0 {
        assert forall|q: int| 0 <= q < k implies #[trigger] stands_in(c, k, a[q]) by {
            assert(c[q] == a[q]);
        }
    } else {
        let b = row_at(k, (j - 1) as nat, a);
        let mid = pivot(k as int, j as int);
        lemma_row_at(k, (j - 1) as nat, a, bound);
        lemma_covers_at(k, (j - 1) as nat, a);
        lemma_last_src_apart(k as int, 0, j as int);
        assert(c == exchanged(b, mid, k - 1));
        assert forall|p: int| k <= p < a.len() implies c[p] == a[p] by {
            lemma_round_src_range(k as int, j - 1, p);
        }
        assert(c[k - 1] == b[mid]);
        assert(b[mid] == a[round_src(k as int, j - 1, mid)]);
        assert forall|q: int| 0 <= q < k implies #[trigger] stands_in(c, k, a[q]) by {
            assert(stands_in(b, k, a[q]));
            let x = choose|x: int| 0 <= x < k && #[trigger] b[x] == a[q];
            let y = turn_src(k as int, j as int, x);
            assert(c[y] == a[q]);
        }
    }
}

/// The rows of round `j` are among the rows of the rounds up to `top`.
proof fn lemma_rows_at_hold(k: nat, top: nat, j: nat, a: Seq<nat>, row: Seq<nat>)
    requires
        1 <= k,
        j <= top < k,
        rows_after((k - 1) as nat, opened(k, j, a)).contains(row),
    ensures
        rows_at(k, top, a).contains(row),
    decreases top,
{
    let below = (k - 1) as nat;
    if top == 0 {
    } else {
        let first = rows_at(k, (top - 1) as nat, a);
        let second = rows_after(below, opened(k, top, a));
        assert(rows_at(k, top, a) == first + second);
        if j == top {
            let i = choose|i: int| 0 <= i < second.len() && second[i] == row;
            assert((first + second)[first.len() + i] == row);
        } else {
            lemma_rows_at_hold(k, (top - 1) as nat, j, a, row);
            let i = choose|i: int| 0 <= i < first.len() && first[i] == row;
            assert((first + second)[i] == row);
        }
    }
}

/// A run over `k` different entries gives out every rearrangement of them:
/// every row of different entries that agrees with `a` after the first `k`
/// places and draws its first `k` entries from those of `a`.
proof fn lemma_rows_after_complete(k: nat, a: Seq<nat>, bound: nat, row: Seq<nat>)
    requires
        k <= a.len(),
        distinct_below(a, bound),
        distinct_below(row, bound),
        row.len() == a.len(),
        forall|p: int| k <= p < a.len() ==> row[p] == a[p],
        covers(a, row, k),
    ensures
        rows_after(k, a).contains(row),
    decreases k,
{
    if k <= 1 {
        assert forall|p: int| 0 <= p < k implies row[p] == a[p] by {
            assert(stands_in(a, k, row[p]));
        }
        assert(row =~= a);
        assert(rows_after(k, a)[0] == row);
    } else {
        let below = (k - 1) as nat;
        assert(stands_in(a, k, row[k - 1]));
        let q = choose|q: int| 0 <= q < k && #[trigger] a[q] == row[k - 1];
        let j = round_of(k as int, q) as nat;
        lemma_round_of(k as int, q);
        let c = opened(k, j, a);
        lemma_opened(k, j, a, bound);
        assert forall|p: int| 0 <= p < below implies #[trigger] stands_in(c, below, row[p]) by {
            assert(stands_in(a, k, row[p]));
            let from = choose|from: int| 0 <= from < k && #[trigger] a[from] == row[p];
            assert(stands_in(c, k, a[from]));
            let x = choose|x: int| 0 <= x < k && #[trigger] c[x] == a[from];
            assert(row[p] != row[k - 1]);
            assert(x != k - 1);
        }
        lemma_rows_after_complete(below, c, bound, row);
        lemma_rows_at_hold(k, below, j, a, row);
    }
}

/// Every ordering of `0..n` is among the rows of `permutations(n)`.
pub proof fn lemma_permutations_complete(n: nat, row: Seq<nat>)
    requires
        is_ordering(row, n),
    ensures
        permutations(n).contains(row),
{
    let start = iota(n);
    lemma_ordering_is_onto(row, n);
    assert forall|p: int| 0 <= p < n implies #[trigger] stands_in(start, n, row[p]) by {
        assert(start[row[p] as int] == row[p]);
    }
    lemma_rows_after_complete(n, start, n, row);
}

/// The numbers below `n`.
pub open spec fn below(n: nat) -> Set<nat> {
    Set::new(|v: nat| v < n)
}

proof fn lemma_below_count(n: nat)
    ensures
        below(n).finite(),
        below(n).len() == n,
    decreases n,
{
    if n == 0 {
        assert(below(n) =~= Set::<nat>::empty());
    } else {
        lemma_below_count((n - 1) as nat);
        assert(below(n) =~= below((n - 1) as nat).insert((n - 1) as nat));
    }
}

/// An ordering of `0..n` holds every number below `n`, and nothing else.
pub proof fn lemma_ordering_is_onto(row: Seq<nat>, n: nat)
    requires
        is_ordering(row, n),
    ensures
        row.to_set() == below(n),
        forall|v: nat| v < n ==> row.contains(v),
{
    broadcast use vstd::seq_lib::group_seq_properties;

    assert(row.no_duplicates());
    row.unique_seq_to_set();
    lemma_below_count(n);
    assert(row.to_set().subset_of(below(n)));
    vstd::set_lib::lemma_len_subset(row.to_set(), below(n));
    vstd::set_lib::lemma_subset_equality(row.to_set(), below(n));
    assert forall|v: nat| v < n implies row.contains(v) by {
        assert(below(n).contains(v));
    }
}

/// The rows of `permutations(n)` are `n!` in number, each is an ordering of
/// `0..n`, and no two of them are equal.
pub proof fn lemma_permutations(n: nat)
    ensures
        permutations(n).len() == factorial(n),
        forall|i: int|
            0 <= i < permutations(n).len() ==> is_ordering(#[trigger] permutations(n)[i], n),
        forall|i: int, j: int|
            0 <= i < j < permutations(n).len() ==> permutations(n)[i] != permutations(n)[j],
{
    let start = iota(n);
    lemma_rows_after_count(n, start);
    lemma_rows_after_apart(n, start, n);
    assert forall|i: int| 0 <= i < permutations(n).len() implies is_ordering(
        #[trigger] permutations(n)[i],
        n,
    ) by {
        lemma_rows_after(n, start, n, i);
    }
}

} // verus!
