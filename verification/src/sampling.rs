//! Taking an item out of a list at a place drawn by chance.

use vstd::prelude::*;

verus! {

/// The thread-local random number generator of `rand`. Nothing is known of
/// its state.
#[verifier::external_type_specification]
#[verifier::external_body]
pub struct ExThreadRng(rand::rngs::ThreadRng);

/// Draws from `rand`'s uniform distribution over `0..bound`, built by
/// `Uniform::from` and read by `Distribution::sample`. The distribution
/// refuses an empty range, so `bound` is positive; whatever is drawn lies
/// in the range. Which number is drawn is left open.
#[verifier::external_body]
fn uniform_below(rng: &mut rand::rngs::ThreadRng, bound: usize) -> (index: usize)
    requires
        bound > 0,
    ensures
        index < bound,
{
    rand::distributions::Distribution::sample(&rand::distributions::Uniform::from(0..bound), rng)
}

/// The list without the item at `index`, whose place the last item takes.
pub open spec fn swap_removed<T>(items: Seq<T>, index: int) -> Seq<T> {
    items.update(index, items.last()).drop_last()
}

/// Takes the item at `index` out of the list; the last item moves into
/// its place.
pub fn remove_at<T>(vector: &mut Vec<T>, index: usize) -> (item: T)
    requires
        index < old(vector)@.len(),
    ensures
        item == old(vector)@[index as int],
        final(vector)@ == swap_removed(old(vector)@, index as int),
{
    vector.swap_remove(index)
}

/// Takes one item out of the list, at a place drawn uniformly by `rng`;
/// the last item moves into its place. An empty list gives `None` and
/// stays as it is.
pub fn sample_and_pop<T>(rng: &mut rand::rngs::ThreadRng, vector: &mut Vec<T>) -> (picked: Option<
    T,
>)
    ensures
        old(vector)@.len() == 0 ==> picked is None && final(vector)@ == old(vector)@,
        old(vector)@.len() > 0 ==> exists|index: int|
            0 <= index < old(vector)@.len() && picked == Some(#[trigger] old(vector)@[index])
                && final(vector)@ == swap_removed(old(vector)@, index),
{
    if vector.is_empty() {
        return None;
    }
    let index = uniform_below(rng, vector.len());
    let item = remove_at(vector, index);
    assert(item == old(vector)@[index as int]);
    Some(item)
}

/// Gives one item of the list, at a place drawn uniformly by `rng`, and
/// drops the rest. An empty list gives `None`.
pub fn sample_and_consume<T>(rng: &mut rand::rngs::ThreadRng, vector: Vec<T>) -> (picked: Option<T>)
    ensures
        vector@.len() == 0 ==> picked is None,
        vector@.len() > 0 ==> exists|index: int|
            0 <= index < vector@.len() && picked == Some(#[trigger] vector@[index]),
{
    let mut vector = vector;
    if vector.is_empty() {
        return None;
    }
    let index = uniform_below(rng, vector.len());
    let item = remove_at(&mut vector, index);
    Some(item)
}

} // verus!
