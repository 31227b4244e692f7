//! Mathematical views of the index tables that the generators return.

use vstd::prelude::*;

verus! {

/// The entries of a row of machine indices, as natural numbers.
pub open spec fn nats(row: Seq<usize>) -> Seq<nat> {
    Seq::new(row.len(), |i: int| row[i] as nat)
}

/// A table of index rows, each row taken as a sequence of natural numbers.
pub open spec fn rows(table: Seq<Vec<usize>>) -> Seq<Seq<nat>> {
    Seq::new(table.len(), |i: int| nats(table[i]@))
}

/// The ascending row `0, 1, .., n - 1`.
pub open spec fn iota(n: nat) -> Seq<nat> {
    Seq::new(n, |i: int| i as nat)
}

/// The coordinates of a grid point, as natural numbers.
pub open spec fn coords(row: Seq<u32>) -> Seq<nat> {
    Seq::new(row.len(), |i: int| row[i] as nat)
}

/// A table of grid points, each taken as a sequence of natural numbers.
pub open spec fn points(table: Seq<Vec<u32>>) -> Seq<Seq<nat>> {
    Seq::new(table.len(), |i: int| coords(table[i]@))
}

/// Appending a coordinate to a point appends it to the point's view.
pub proof fn lemma_coords_push(row: Seq<u32>, entry: u32)
    ensures
        coords(row.push(entry)) == coords(row).push(entry as nat),
{
    assert(coords(row.push(entry)) =~= coords(row).push(entry as nat));
}

/// Appending a point to a table appends its view to the table's view.
pub proof fn lemma_points_push(table: Seq<Vec<u32>>, row: Vec<u32>)
    ensures
        points(table.push(row)) == points(table).push(coords(row@)),
{
    assert(points(table.push(row)) =~= points(table).push(coords(row@)));
}

/// Appending an entry to a row appends it to the row's view.
pub proof fn lemma_nats_push(row: Seq<usize>, entry: usize)
    ensures
        nats(row.push(entry)) == nats(row).push(entry as nat),
{
    assert(nats(row.push(entry)) =~= nats(row).push(entry as nat));
}

/// Appending a row to a table appends its view to the table's view.
pub proof fn lemma_rows_push(table: Seq<Vec<usize>>, row: Vec<usize>)
    ensures
        rows(table.push(row)) == rows(table).push(nats(row@)),
{
    assert(rows(table.push(row)) =~= rows(table).push(nats(row@)));
}

/// The view of two tables joined is the two views joined.
pub proof fn lemma_rows_add(first: Seq<Vec<usize>>, second: Seq<Vec<usize>>)
    ensures
        rows(first + second) == rows(first) + rows(second),
{
    assert(rows(first + second) =~= rows(first) + rows(second));
}

} // verus!
