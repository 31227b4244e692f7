//! The pattern in which the exchange scheme of `permutation` moves the
//! entries of its working row, as maps of positions.
//!
//! A run over an odd number of entries ends with its first and last entry
//! exchanged. A run over two entries exchanges them, and a run over an even
//! number `k >= 4` of entries ends with the entries `k-3, k-2, 1, .., k-4,
//! k-1, 0` in the places `0, .., k-1`. What holds between the rounds is
//! written down for both cases; the facts below are plain arithmetic on
//! these maps.

use vstd::prelude::*;

verus! {

/// Where the entry that stands at `p` after a run over `k` entries stood
/// before the run.
pub closed spec fn run_src(k: int, p: int) -> int {
    if p >= k {
        p
    } else if k % 2 == 1 {
        if p == 0 {
            k - 1
        } else if p == k - 1 {
            0
        } else {
            p
        }
    } else if p == k - 1 {
        0
    } else if p == k - 2 {
        k - 1
    } else if p == 0 {
        k - 3
    } else if p == 1 {
        k - 2
    } else {
        p - 1
    }
}

/// The positions `1..=n-3` mirrored, the others left alone: in this order
/// the rounds of a run over `n + 1` entries, `n` even, turn its entries
/// like a wheel.
spec fn fold(n: int, p: int) -> int {
    if 1 <= p <= n - 3 {
        n - 2 - p
    } else {
        p
    }
}

/// `x` reduced once by `k`.
spec fn wrap(x: int, k: int) -> int {
    if x >= k {
        x - k
    } else {
        x
    }
}

/// Where the entry that stands at `p` after the opening run and `j` rounds
/// of a run over `k` entries stood before.
pub closed spec fn round_src(k: int, j: int, p: int) -> int {
    if p >= k {
        p
    } else if k % 2 == 1 {
        run_src(k - 1, fold(k - 1, wrap(fold(k - 1, p) + j, k)))
    } else if j == 0 {
        run_src(k - 1, p)
    } else if j == k - 1 {
        run_src(k, p)
    } else if p == 0 {
        if j % 2 == 1 {
            0
        } else {
            k - 1
        }
    } else if p == k - 2 {
        if j % 2 == 1 {
            k - 1
        } else {
            0
        }
    } else if p == k - 1 {
        if j == 1 {
            k - 2
        } else {
            j - 1
        }
    } else if p < j {
        if p == 1 {
            k - 2
        } else {
            p - 1
        }
    } else {
        p
    }
}

/// The position that the exchange of round `j` sends to the end of the
/// run.
pub open spec fn pivot(k: int, j: int) -> int {
    if k % 2 == 0 {
        j - 1
    } else {
        0
    }
}

/// The exchange of round `j` as a map of positions.
pub open spec fn turn_src(k: int, j: int, p: int) -> int {
    if p == pivot(k, j) {
        k - 1
    } else if p == k - 1 {
        pivot(k, j)
    } else {
        p
    }
}

/// Where the entry that ends the run during round `j` stood at first.
pub open spec fn last_src(k: int, j: int) -> int {
    if j == 0 {
        k - 1
    } else {
        round_src(k, j - 1, pivot(k, j))
    }
}

/// A run over `k` entries moves entries among its first `k` places only.
pub proof fn lemma_run_src_range(k: int, p: int)
    requires
        k >= 0,
        0 <= p,
    ensures
        0 <= run_src(k, p),
        p < k ==> run_src(k, p) < k,
        p >= k ==> run_src(k, p) == p,
{
}

/// So do the rounds of a run.
pub proof fn lemma_round_src_range(k: int, j: int, p: int)
    requires
        k >= 1,
        0 <= j < k,
        0 <= p,
    ensures
        0 <= round_src(k, j, p),
        p < k ==> round_src(k, j, p) < k,
        p >= k ==> round_src(k, j, p) == p,
{
}

/// A run over at most one entry moves nothing.
pub proof fn lemma_run_src_still(k: int, p: int)
    requires
        0 <= k <= 1,
        0 <= p,
    ensures
        run_src(k, p) == p,
{
}

/// Before any round the row is as the opening run left it.
pub proof fn lemma_round_src_first(k: int, p: int)
    requires
        k >= 1,
        0 <= p,
    ensures
        round_src(k, 0, p) == run_src(k - 1, p),
{
}

/// After the last round the run is over.
pub proof fn lemma_round_src_last(k: int, p: int)
    requires
        k >= 2,
        0 <= p,
    ensures
        round_src(k, k - 1, p) == run_src(k, p),
{
}

/// One round is an exchange followed by a run over `k - 1` entries.
pub proof fn lemma_round_src_step(k: int, j: int, p: int)
    requires
        k >= 2,
        1 <= j < k,
        0 <= p,
    ensures
        round_src(k, j, p) == round_src(k, j - 1, turn_src(k, j, run_src(k - 1, p))),
{
}

/// The rounds of a run end in entries from different places.
pub proof fn lemma_last_src_apart(k: int, i: int, j: int)
    requires
        k >= 1,
        0 <= i < j < k,
    ensures
        0 <= last_src(k, i) < k,
        0 <= last_src(k, j) < k,
        last_src(k, i) != last_src(k, j),
{
}

/// The round of a run over `k` entries that ends in the entry from place
/// `q`.
pub closed spec fn round_of(k: int, q: int) -> int {
    if q == k - 1 {
        0
    } else if k % 2 == 0 {
        if q == k - 2 {
            1
        } else if q == 0 {
            k - 1
        } else {
            q + 1
        }
    } else {
        1 + fold(
            k - 1,
            if q == 0 {
                k - 2
            } else if q == k - 2 {
                k - 3
            } else if q == k - 4 {
                0
            } else if q == k - 3 {
                1
            } else {
                q + 1
            },
        )
    }
}

/// Every entry of a run ends one of its rounds.
pub proof fn lemma_round_of(k: int, q: int)
    requires
        k >= 1,
        0 <= q < k,
    ensures
        0 <= round_of(k, q) < k,
        last_src(k, round_of(k, q)) == q,
{
}

} // verus!
