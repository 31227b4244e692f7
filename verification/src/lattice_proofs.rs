//! The grid of `lattice` has `depth^dimension` points, every coordinate
//! stays below `depth`, and the points ascend in dictionary order.

use crate::lattice::{
    differ_at, extensions, extensions_below, is_grid_point, lattice_points, precedes,
};
use crate::sizes::power;
use vstd::prelude::*;

verus! {

/// A complete prefix has one extension, a prefix that lacks `r`
/// coordinates has `depth^r`.
proof fn lemma_extensions_count(prefix: Seq<nat>, dimension: nat, depth: nat)
    requires
        prefix.len() <= dimension,
    ensures
        extensions(prefix, dimension, depth).len() == power(
            depth,
            (dimension - prefix.len()) as nat,
        ),
    decreases dimension - prefix.len(), depth + 1,
{
    if prefix.len() < dimension {
        lemma_extensions_below_count(prefix, dimension, depth, depth);
    }
}

proof fn lemma_extensions_below_count(prefix: Seq<nat>, dimension: nat, depth: nat, limit: nat)
    requires
        prefix.len() < dimension,
    ensures
        extensions_below(prefix, dimension, depth, limit).len() == limit * power(
            depth,
            (dimension - prefix.len() - 1) as nat,
        ),
    decreases dimension - prefix.len(), limit,
{
    let each = power(depth, (dimension - prefix.len() - 1) as nat);
    if limit == 0 {
        assert(limit * each == 0) by (nonlinear_arith)
            requires
                limit == 0,
        ;
    } else {
        let lower = (limit - 1) as nat;
        lemma_extensions_below_count(prefix, dimension, depth, lower);
        lemma_extensions_count(prefix.push(lower), dimension, depth);
        assert(lower * each + each == limit * each) by (nonlinear_arith)
            requires
                lower + 1 == limit,
        ;
    }
}

/// Every extension of a prefix begins with the prefix and goes on with
/// coordinates below `depth` up to the full dimension.
proof fn lemma_extensions_rows(prefix: Seq<nat>, dimension: nat, depth: nat, i: int)
    requires
        prefix.len() <= dimension,
        0 <= i < extensions(prefix, dimension, depth).len(),
    ensures
        extensions(prefix, dimension, depth)[i].len() == dimension,
        forall|p: int| 0 <= p < prefix.len() ==> extensions(prefix, dimension, depth)[i][p] == prefix[p],
        forall|p: int|
            prefix.len() <= p < dimension ==> extensions(prefix, dimension, depth)[i][p] < depth,
    decreases dimension - prefix.len(), depth + 1,
{
    if prefix.len() < dimension {
        lemma_extensions_below_rows(prefix, dimension, depth, depth, i);
    }
}

proof fn lemma_extensions_below_rows(
    prefix: Seq<nat>,
    dimension: nat,
    depth: nat,
    limit: nat,
    i: int,
)
    requires
        prefix.len() < dimension,
        limit <= depth,
        0 <= i < extensions_below(prefix, dimension, depth, limit).len(),
    ensures
        extensions_below(prefix, dimension, depth, limit)[i].len() == dimension,
        forall|p: int|
            0 <= p < prefix.len() ==> extensions_below(prefix, dimension, depth, limit)[i][p]
                == prefix[p],
        forall|p: int|
            prefix.len() <= p < dimension ==> extensions_below(prefix, dimension, depth, limit)[i][p]
                < depth,
        extensions_below(prefix, dimension, depth, limit)[i][prefix.len() as int] < limit,
    decreases dimension - prefix.len(), limit,
{
    let lower = (limit - 1) as nat;
    let before = extensions_below(prefix, dimension, depth, lower);
    let longer = prefix.push(lower);
    if i < before.len() {
        lemma_extensions_below_rows(prefix, dimension, depth, lower, i);
    } else {
        let j = i - before.len();
        lemma_extensions_rows(longer, dimension, depth, j);
        let row = extensions(longer, dimension, depth)[j];
        assert(extensions_below(prefix, dimension, depth, limit)[i] == row);
        assert forall|p: int| 0 <= p < prefix.len() implies row[p] == prefix[p] by {
            assert(row[p] == longer[p]);
        }
        assert(row[prefix.len() as int] == longer[prefix.len() as int]);
    }
}

/// The extensions of a prefix ascend in dictionary order.
proof fn lemma_extensions_ascend(prefix: Seq<nat>, dimension: nat, depth: nat, i: int, j: int)
    requires
        prefix.len() <= dimension,
        0 <= i < j < extensions(prefix, dimension, depth).len(),
    ensures
        precedes(extensions(prefix, dimension, depth)[i], extensions(prefix, dimension, depth)[j]),
    decreases dimension - prefix.len(), depth + 1,
{
    if prefix.len() < dimension {
        lemma_extensions_below_ascend(prefix, dimension, depth, depth, i, j);
    }
}

proof fn lemma_extensions_below_ascend(
    prefix: Seq<nat>,
    dimension: nat,
    depth: nat,
    limit: nat,
    i: int,
    j: int,
)
    requires
        prefix.len() < dimension,
        limit <= depth,
        0 <= i < j < extensions_below(prefix, dimension, depth, limit).len(),
    ensures
        precedes(
            extensions_below(prefix, dimension, depth, limit)[i],
            extensions_below(prefix, dimension, depth, limit)[j],
        ),
    decreases dimension - prefix.len(), limit,
{
    let lower = (limit - 1) as nat;
    let all = extensions_below(prefix, dimension, depth, limit);
    let before = extensions_below(prefix, dimension, depth, lower);
    let longer = prefix.push(lower);
    let through = extensions(longer, dimension, depth);
    assert(all == before + through);
    if j < before.len() {
        lemma_extensions_below_ascend(prefix, dimension, depth, lower, i, j);
    } else if i >= before.len() {
        lemma_extensions_ascend(longer, dimension, depth, i - before.len(), j - before.len());
    } else {
        lemma_extensions_below_rows(prefix, dimension, depth, lower, i);
        lemma_extensions_rows(longer, dimension, depth, j - before.len());
        let low = before[i];
        let high = through[j - before.len()];
        assert(high[prefix.len() as int] == longer[prefix.len() as int]);
        assert forall|s: int| 0 <= s < prefix.len() implies low[s] == high[s] by {
            assert(high[s] == longer[s]);
        }
        assert(differ_at(low, high, prefix.len() as int));
    }
}

/// `point` begins with `prefix`.
pub open spec fn begins_with(point: Seq<nat>, prefix: Seq<nat>) -> bool {
    &&& prefix.len() <= point.len()
    &&& forall|p: int| 0 <= p < prefix.len() ==> point[p] == prefix[p]
}

/// The extensions through the coordinate `next` are among those through
/// the coordinates below any higher limit.
proof fn lemma_extensions_within(
    prefix: Seq<nat>,
    dimension: nat,
    depth: nat,
    limit: nat,
    next: nat,
    point: Seq<nat>,
)
    requires
        prefix.len() < dimension,
        next < limit,
        extensions(prefix.push(next), dimension, depth).contains(point),
    ensures
        extensions_below(prefix, dimension, depth, limit).contains(point),
    decreases limit,
{
    let lower = (limit - 1) as nat;
    let before = extensions_below(prefix, dimension, depth, lower);
    let through = extensions(prefix.push(lower), dimension, depth);
    if next == lower {
        let i = choose|i: int| 0 <= i < through.len() && through[i] == point;
        assert((before + through)[before.len() + i] == point);
    } else {
        lemma_extensions_within(prefix, dimension, depth, lower, next, point);
        let i = choose|i: int| 0 <= i < before.len() && before[i] == point;
        assert((before + through)[i] == point);
    }
}

/// Every grid point that begins with a prefix is among its extensions.
proof fn lemma_extensions_complete(prefix: Seq<nat>, dimension: nat, depth: nat, point: Seq<nat>)
    requires
        prefix.len() <= dimension,
        is_grid_point(point, dimension, depth),
        begins_with(point, prefix),
    ensures
        extensions(prefix, dimension, depth).contains(point),
    decreases dimension - prefix.len(),
{
    if prefix.len() == dimension {
        assert(point =~= prefix);
        assert(extensions(prefix, dimension, depth)[0] == point);
    } else {
        let next = point[prefix.len() as int];
        lemma_extensions_complete(prefix.push(next), dimension, depth, point);
        lemma_extensions_within(prefix, dimension, depth, depth, next, point);
    }
}

/// Every point of the grid is in the lattice.
pub proof fn lemma_lattice_complete(dimension: nat, depth: nat, point: Seq<nat>)
    requires
        is_grid_point(point, dimension, depth),
    ensures
        lattice_points(dimension, depth).contains(point),
{
    lemma_extensions_complete(Seq::empty(), dimension, depth, point);
}

/// The grid has `depth^dimension` points, each with `dimension`
/// coordinates below `depth`, and each comes before every later one in
/// dictionary order.
pub proof fn lemma_lattice(dimension: nat, depth: nat)
    ensures
        lattice_points(dimension, depth).len() == power(depth, dimension),
        forall|i: int|
            0 <= i < lattice_points(dimension, depth).len() ==> is_grid_point(
                #[trigger] lattice_points(dimension, depth)[i],
                dimension,
                depth,
            ),
        forall|i: int, j: int|
            0 <= i < j < lattice_points(dimension, depth).len() ==> precedes(
                #[trigger] lattice_points(dimension, depth)[i],
                #[trigger] lattice_points(dimension, depth)[j],
            ),
{
    let start = Seq::<nat>::empty();
    lemma_extensions_count(start, dimension, depth);
    assert forall|i: int| 0 <= i < lattice_points(dimension, depth).len() implies is_grid_point(
        #[trigger] lattice_points(dimension, depth)[i],
        dimension,
        depth,
    ) by {
        lemma_extensions_rows(start, dimension, depth, i);
    }
    assert forall|i: int, j: int|
        0 <= i < j < lattice_points(dimension, depth).len() implies precedes(
        #[trigger] lattice_points(dimension, depth)[i],
        #[trigger] lattice_points(dimension, depth)[j],
    ) by {
        lemma_extensions_ascend(start, dimension, depth, i, j);
    }
}

} // verus!
