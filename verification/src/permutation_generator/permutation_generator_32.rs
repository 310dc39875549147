use crate::cursor::{contents, lookup, Cursor};
use crate::error::PermutationGeneratorError;
use crate::factorial::{factorial, factorial128};
use crate::ranking::{is_permutation, lemma_decode_is_permutation};
use crate::single_permutation::SinglePermutation32;
use vstd::prelude::*;

verus! {

/// A cursor over the permutations of at most 32 elements, in lexicographic
/// order. Ranks are counted in 128 bits.
#[derive(Clone, Copy, Debug)]
pub struct PermutationGenerator32 {
    nb_elems: u8,
    nb_perms: u128,
    next_idx: u128,
}

impl PermutationGenerator32 {
    /// The most elements that this tier arranges.
    pub const MAX_ELEMENTS: u8 = 32;

    /// The number of elements and the rank of the permutation that comes
    /// next.
    pub closed spec fn view(&self) -> Cursor {
        Cursor { nb_elems: self.nb_elems as nat, next_idx: self.next_idx as nat }
    }

    /// The size of the space is the one that belongs to the number of
    /// elements, which the tier can hold.
    #[verifier::type_invariant]
    spec fn wf(&self) -> bool {
        &&& self.nb_elems <= 32
        &&& self.nb_perms == factorial(self.nb_elems as nat)
    }

    /// A cursor before the first permutation of `0, .., nb_elems-1`.
    pub fn new(nb_elems: u8) -> (r: Result<Self, PermutationGeneratorError>)
        ensures
            r is Err <==> nb_elems > 32,
            r is Err ==> r == Err::<Self, _>(PermutationGeneratorError::TooManyElements),
            r matches Ok(g) ==> g@ == Cursor::fresh(nb_elems as nat),
    {
        match Self::check_nb_elems(nb_elems) {
            Ok(()) => Ok(Self { next_idx: 0, nb_perms: factorial128(nb_elems), nb_elems }),
            Err(e) => Err(e),
        }
    }

    /// Yields the permutation at the cursor and moves one rank on.
    pub fn next_permutation(&mut self) -> (r: Option<Vec<u8>>)
        ensures
            contents(r) == old(self)@.yields(0, u128::MAX as nat),
            r matches Some(p) ==> is_permutation(p@, old(self)@.nb_elems),
            final(self)@ == old(self)@.advance(0, u128::MAX as nat),
    {
        self.nth(0)
    }

    /// The permutation of `0, .., nb_elems-1` at rank `idx`, or nothing
    /// when there is no such rank.
    pub fn nth_absolute(nb_elems: u8, idx: u128) -> (r: Result<
        Option<Vec<u8>>,
        PermutationGeneratorError,
    >)
        ensures
            r is Err <==> nb_elems > 32,
            r is Err ==> r == Err::<Option<Vec<u8>>, _>(
                PermutationGeneratorError::TooManyElements,
            ),
            r matches Ok(found) ==> contents(found) == lookup(nb_elems as nat, idx as nat),
            r matches Ok(Some(p)) ==> is_permutation(p@, nb_elems as nat),
    {
        match Self::check_nb_elems(nb_elems) {
            Ok(()) => {
                match SinglePermutation32::new(nb_elems, factorial128(nb_elems), idx) {
                    Some(decoder) => {
                        proof {
                            lemma_decode_is_permutation(nb_elems as nat, idx as nat);
                        }
                        Ok(Some(decoder.into_vec()))
                    },
                    None => Ok(None),
                }
            },
            Err(e) => Err(e),
        }
    }

    /// Skips `step` permutations, yields the one behind them and moves
    /// behind that one. The rank asked for is held at the largest that 128
    /// bits count; where it is no rank of the space, nothing is yielded
    /// and the cursor is exhausted.
    pub fn nth(&mut self, step: u128) -> (r: Option<Vec<u8>>)
        ensures
            contents(r) == old(self)@.yields(step as nat, u128::MAX as nat),
            r matches Some(p) ==> is_permutation(p@, old(self)@.nb_elems),
            final(self)@ == old(self)@.advance(step as nat, u128::MAX as nat),
    {
        proof {
            use_type_invariant(&*self);
        }
        let step_result: u128 = self.next_idx.saturating_add(step);
        let res = match SinglePermutation32::new(self.nb_elems, self.nb_perms, step_result) {
            Some(decoder) => {
                proof {
                    lemma_decode_is_permutation(self.nb_elems as nat, step_result as nat);
                }
                Some(decoder.into_vec())
            },
            None => None,
        };
        self.next_idx = step_result.saturating_add(1);
        res
    }

    /// How many permutations are left to yield, for a caller who knows
    /// that a `usize` can hold the number.
    pub fn nb_remaining(&self) -> (r: usize)
        requires
            self@.remaining() <= usize::MAX,
        ensures
            r == self@.remaining(),
    {
        proof {
            use_type_invariant(self);
        }
        self.nb_perms.saturating_sub(self.next_idx) as usize
    }

    /// How many permutations are left to yield, or nothing when a `usize`
    /// cannot hold the number.
    pub fn checked_nb_remaining(&self) -> (r: Option<usize>)
        ensures
            r is Some <==> self@.remaining() <= usize::MAX,
            r matches Some(left) ==> left == self@.remaining(),
    {
        proof {
            use_type_invariant(self);
        }
        let left: u128 = self.nb_perms.saturating_sub(self.next_idx);
        if left <= usize::MAX as u128 {
            Some(self.nb_remaining())
        } else {
            None
        }
    }

    fn check_nb_elems(nb_elems: u8) -> (r: Result<(), PermutationGeneratorError>)
        ensures
            r is Err <==> nb_elems > 32,
            r is Err ==> r == Err::<(), _>(PermutationGeneratorError::TooManyElements),
    {
        if nb_elems > Self::MAX_ELEMENTS {
            Err(PermutationGeneratorError::TooManyElements)
        } else {
            Ok(())
        }
    }
}

} // verus!
