//! Enumeration of combinations, permutations, lattice points and mixed-radix
//! digit rows over finite index domains, with contracts proved by Verus.
//!
//! Each generator comes with a mathematical model of what it returns and
//! with the laws of that model:
//!
//! - `combinator`: the combinations of `k` out of `n`, remembered between
//!   queries; their laws are in `combinator_proofs`.
//! - `permutation`: all orderings of `0..n` by single exchanges; their laws
//!   are in `permutation_proofs`, over the arithmetic of `exchange_pattern`.
//! - `lattice`: the points of a grid in dictionary order; their laws are in
//!   `lattice_proofs`.
//! - `explorer`: an endless counter over digit rows of growing length; its
//!   laws are in `explorer_proofs`.
//! - `selection`, `sampling`, `intersperse`, `sizes`: small helpers.
//! - `views`: how tables of machine integers are read as tables of numbers.

pub mod combinator;
pub mod combinator_proofs;
pub mod exchange_pattern;
pub mod explorer;
pub mod explorer_proofs;
pub mod intersperse;
pub mod lattice;
pub mod lattice_proofs;
pub mod permutation;
pub mod permutation_proofs;
pub mod sampling;
pub mod selection;
pub mod sizes;
pub mod views;

pub use crate::explorer::{InvalidArgument, ListExplorer};
pub use crate::intersperse::Intersperse;
pub use crate::lattice::{inner_lattice, lattice};
pub use crate::permutation::{
    factorial_upper_bound, generate_permutations, inner_generate_permutations,
};
pub use crate::sampling::{remove_at, sample_and_consume, sample_and_pop};
pub use crate::selection::select;
