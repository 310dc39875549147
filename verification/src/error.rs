use vstd::prelude::*;

verus! {

/// What a request for a permutation space can be refused for.
#[derive(Copy, Clone, Debug, PartialEq, Eq, Structural, Hash)]
pub enum PermutationGeneratorError {
    /// More elements were asked for than the capacity tier can count.
    TooManyElements,
    /// A slice of labels is shorter than the number of elements to arrange.
    SliceTooSmall,
}

} // verus!
