//! Putting a separator between the rounds of a loop, and none before the
//! first.

use vstd::prelude::*;

verus! {

/// Remembers whether a loop has begun a round yet.
pub struct Intersperse {
    first: bool,
}

impl Intersperse {
    /// No round has begun yet.
    pub closed spec fn fresh(&self) -> bool {
        self.first
    }

    /// The state before the first round.
    pub fn new() -> (spacer: Intersperse)
        ensures
            spacer.fresh(),
    {
        Intersperse { first: true }
    }

    /// Called at the start of each round: says whether a separator goes
    /// before it, which is so for every round but the first.
    pub fn separator_due(&mut self) -> (due: bool)
        ensures
            due == !old(self).fresh(),
            !final(self).fresh(),
    {
        if self.first {
            self.first = false;
            false
        } else {
            true
        }
    }
}

} // verus!
