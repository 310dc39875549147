//! The cursors: one for each capacity tier.

pub mod permutation_generator_16;
pub mod permutation_generator_32;
pub mod permutation_generator_8;

pub use permutation_generator_16::PermutationGenerator16;
pub use permutation_generator_32::PermutationGenerator32;
pub use permutation_generator_8::PermutationGenerator8;
