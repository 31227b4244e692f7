//! Reading entries out of a list by their indices.

use vstd::prelude::*;

verus! {

/// The entries of `source_vector` at the places that `indices` names, in
/// the order of `indices`, each one cloned. Every index must name a place
/// of `source_vector`.
pub fn select<T>(source_vector: &Vec<T>, indices: &Vec<usize>) -> (out: Vec<T>) where T: Clone
    requires
        forall|i: int| 0 <= i < indices@.len() ==> indices@[i] < source_vector@.len(),
    ensures
        out@.len() == indices@.len(),
        forall|i: int|
            0 <= i < indices@.len() ==> cloned(
                source_vector@[indices@[i] as int],
                #[trigger] out@[i],
            ),
{
    let mut out: Vec<T> = Vec::with_capacity(indices.len());
    for at in 0..indices.len()
        invariant
            out@.len() == at,
            forall|i: int| 0 <= i < indices@.len() ==> indices@[i] < source_vector@.len(),
            forall|i: int|
                0 <= i < at ==> cloned(source_vector@[indices@[i] as int], #[trigger] out@[i]),
    {
        out.push(source_vector[indices[at]].clone());
    }
    out
}

} // verus!
