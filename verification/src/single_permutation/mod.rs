//! The decoders: each emits, value by value, the one permutation that
//! stands at a given rank.

pub mod single_permutation_16;
pub mod single_permutation_32;
pub mod single_permutation_8;

pub use single_permutation_16::SinglePermutation16;
pub use single_permutation_32::SinglePermutation32;
pub use single_permutation_8::SinglePermutation8;
