//! Direct access to the k-th permutation of `{0, .., n-1}` in lexicographic
//! order, without enumerating the permutations that precede it.
//!
//! Three capacity tiers count ranks in 16, 64 and 128 bits, wide enough for
//! the permutations of at most 8, 16 and 32 elements.

pub mod cursor;
pub mod error;
pub mod factorial;
pub mod permutation_generator;
pub mod pool;
pub mod ranking;
pub mod single_permutation;

pub use error::PermutationGeneratorError;
pub use factorial::{factorial128, factorial16, factorial64};
pub use permutation_generator::{
    PermutationGenerator16, PermutationGenerator32, PermutationGenerator8,
};
pub use single_permutation::{SinglePermutation16, SinglePermutation32, SinglePermutation8};
