//! The points of a grid with `depth` values on each of `dimension` axes,
//! in dictionary order.

use crate::lattice_proofs::{lemma_lattice, lemma_lattice_complete};
use crate::sizes::{power, saturating_power};
use crate::views::{coords, lemma_coords_push, lemma_points_push, points};
use vstd::prelude::*;

verus! {

/// The grid points that begin with `prefix`, in dictionary order: `prefix`
/// itself when it is complete, else the points through each next
/// coordinate `0, 1, .., depth - 1` in turn.
pub open spec fn extensions(prefix: Seq<nat>, dimension: nat, depth: nat) -> Seq<Seq<nat>>
    decreases dimension - prefix.len(), depth + 1,
{
    if prefix.len() >= dimension {
        seq![prefix]
    } else {
        extensions_below(prefix, dimension, depth, depth)
    }
}

/// The grid points that begin with `prefix` and go on with a coordinate
/// below `limit`.
pub open spec fn extensions_below(prefix: Seq<nat>, dimension: nat, depth: nat, limit: nat) -> Seq<
    Seq<nat>,
>
    decreases dimension - prefix.len(), limit,
{
    if prefix.len() >= dimension || limit == 0 {
        Seq::empty()
    } else {
        extensions_below(prefix, dimension, depth, (limit - 1) as nat) + extensions(
            prefix.push((limit - 1) as nat),
            dimension,
            depth,
        )
    }
}

/// All points of the grid, the first coordinate turning slowest.
pub open spec fn lattice_points(dimension: nat, depth: nat) -> Seq<Seq<nat>> {
    extensions(Seq::empty(), dimension, depth)
}

/// `first` and `second` agree before place `at`, where `first` is lower.
pub open spec fn differ_at(first: Seq<nat>, second: Seq<nat>, at: int) -> bool {
    &&& 0 <= at < first.len()
    &&& at < second.len()
    &&& first[at] < second[at]
    &&& forall|s: int| 0 <= s < at ==> first[s] == second[s]
}

/// `first` comes before `second` in dictionary order: where they first
/// differ, `first` is lower.
pub open spec fn precedes(first: Seq<nat>, second: Seq<nat>) -> bool {
    exists|at: int| differ_at(first, second, at)
}

/// A point of the grid: `dimension` coordinates below `depth`.
pub open spec fn is_grid_point(point: Seq<nat>, dimension: nat, depth: nat) -> bool {
    &&& point.len() == dimension
    &&& forall|p: int| 0 <= p < point.len() ==> point[p] < depth
}

/// A copy of a grid point.
fn copy_point(point: &Vec<u32>) -> (copy: Vec<u32>)
    ensures
        copy@ == point@,
{
    let copy = point.clone();
    assert(copy@ =~= point@);
    copy
}

/// Appends to `out_set` every grid point that begins with
/// `working_vector`, in dictionary order.
pub fn inner_lattice(
    dimension: usize,
    depth: u32,
    working_vector: Vec<u32>,
    out_set: &mut Vec<Vec<u32>>,
)
    requires
        working_vector@.len() <= dimension,
    ensures
        points(final(out_set)@) == points(old(out_set)@) + extensions(
            coords(working_vector@),
            dimension as nat,
            depth as nat,
        ),
    decreases dimension - working_vector@.len(),
{
    let ghost given = points(out_set@);
    let ghost prefix = coords(working_vector@);
    if working_vector.len() == dimension {
        proof {
            lemma_points_push(out_set@, working_vector);
            assert(given.push(prefix) =~= given + seq![prefix]);
        }
        out_set.push(working_vector);
        return ;
    }
    assert(given + Seq::<Seq<nat>>::empty() =~= given);
    for i in 0..depth
        invariant
            working_vector@.len() < dimension,
            prefix == coords(working_vector@),
            points(out_set@) == given + extensions_below(
                prefix,
                dimension as nat,
                depth as nat,
                i as nat,
            ),
    {
        let mut child_vector = copy_point(&working_vector);
        child_vector.push(i);
        proof {
            lemma_coords_push(working_vector@, i);
        }
        inner_lattice(dimension, depth, child_vector, out_set);
        proof {
            let before = extensions_below(prefix, dimension as nat, depth as nat, i as nat);
            let through = extensions(prefix.push(i as nat), dimension as nat, depth as nat);
            assert((given + before) + through =~= given + (before + through));
        }
    }
}

/// Every point of the grid with `depth` values on each of `dimension`
/// axes, in dictionary order: the last coordinate turns fastest.
pub fn lattice(dimension: usize, depth: u32) -> (out: Vec<Vec<u32>>)
    ensures
        points(out@) == lattice_points(dimension as nat, depth as nat),
        out@.len() == power(depth as nat, dimension as nat),
        forall|i: int|
            0 <= i < out@.len() ==> is_grid_point(
                #[trigger] points(out@)[i],
                dimension as nat,
                depth as nat,
            ),
        forall|point: Seq<nat>|
            is_grid_point(point, dimension as nat, depth as nat) ==> #[trigger] points(
                out@,
            ).contains(point),
        forall|i: int, j: int|
            0 <= i < j < out@.len() ==> precedes(
                #[trigger] points(out@)[i],
                #[trigger] points(out@)[j],
            ),
{
    let mut out: Vec<Vec<u32>> = Vec::new();
    let _ = out.try_reserve(saturating_power(depth as usize, dimension));
    let mut working_vector: Vec<u32> = Vec::new();
    let _ = working_vector.try_reserve(dimension);
    assert(points(out@) =~= Seq::<Seq<nat>>::empty());
    assert(coords(working_vector@) =~= Seq::<nat>::empty());
    inner_lattice(dimension, depth, working_vector, &mut out);
    proof {
        assert(Seq::<Seq<nat>>::empty() + lattice_points(dimension as nat, depth as nat)
            =~= lattice_points(dimension as nat, depth as nat));
        lemma_lattice(dimension as nat, depth as nat);
        assert forall|point: Seq<nat>|
            is_grid_point(point, dimension as nat, depth as nat) implies #[trigger] lattice_points(
            dimension as nat,
            depth as nat,
        ).contains(point) by {
            lemma_lattice_complete(dimension as nat, depth as nat, point);
        }
    }
    out
}

} // verus!
