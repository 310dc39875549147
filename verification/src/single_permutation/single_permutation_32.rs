use crate::factorial::{
    factorial, factorial128, lemma_factorial_positive, lemma_factorial_quotient,
};
use crate::pool::{below_limit, full_range, pool32_contents, pool32_limit};
use crate::ranking::{
    arrange, ascending, lemma_full_range_ascending, lemma_remove_ascending,
    lemma_remove_below_limit, lemma_step_arithmetic,
};
use bit_index::BitIndex32;
use vstd::prelude::*;

verus! {

/// A decoder for one permutation of at most 32 elements. It owns the pool
/// of values not yet emitted and the rank, among the arrangements of that
/// pool, of what is still to come.
#[derive(Debug, Clone, Copy, PartialEq, Eq, Hash)]
pub struct SinglePermutation32 {
    elems: BitIndex32,
    next_mod: u128,
    current_idx: u128,
}

impl SinglePermutation32 {
    /// The values not yet emitted, smallest first.
    pub closed spec fn remaining(&self) -> Seq<u8> {
        pool32_contents(self.elems)
    }

    /// The rank of what is still to come among the arrangements of
    /// `remaining()`.
    pub closed spec fn rank(&self) -> nat {
        self.current_idx as nat
    }

    /// The values that successive calls of `next` will return.
    pub open spec fn pending(&self) -> Seq<u8> {
        arrange(self.remaining(), self.rank())
    }

    /// The rank has an arrangement, the pool is within its bounds, and the
    /// place value is the one of the leading digit.
    #[verifier::type_invariant]
    spec fn wf(&self) -> bool {
        let len = self.remaining().len();
        &&& ascending(self.remaining())
        &&& below_limit(self.remaining(), pool32_limit(self.elems))
        &&& len <= pool32_limit(self.elems) <= 32
        &&& self.rank() < factorial(len)
        &&& self.next_mod >= 1
        &&& len >= 1 ==> self.next_mod == factorial((len - 1) as nat)
    }

    /// A decoder for the permutation of `0, .., nb_elems-1` at rank `idx`,
    /// or nothing when `idx` is no rank of the `nb_perms` there are.
    pub fn new(nb_elems: u8, nb_perms: u128, idx: u128) -> (r: Option<Self>)
        requires
            nb_elems <= 32,
            nb_perms == factorial(nb_elems as nat),
        ensures
            r is None <==> idx >= nb_perms,
            r matches Some(d) ==> d.remaining() == full_range(nb_elems as nat) && d.rank() == idx,
    {
        if idx >= nb_perms {
            None
        } else {
            let next_mod: u128 = if nb_elems == 0 {
                1
            } else {
                nb_perms / (nb_elems as u128)
            };
            proof {
                lemma_full_range_ascending(nb_elems as nat);
                if nb_elems > 0 {
                    lemma_factorial_quotient(nb_elems as nat);
                    lemma_factorial_positive((nb_elems - 1) as nat);
                }
            }
            Some(
                Self { elems: BitIndex32::new(nb_elems).unwrap(), next_mod, current_idx: idx },
            )
        }
    }

    /// A decoder for the permutation of `0, .., nb_elems-1` at rank `idx`,
    /// for a caller who knows that there is such a rank.
    pub fn new_unchecked(nb_elems: u8, idx: u128) -> (d: Self)
        requires
            nb_elems <= 32,
            idx < factorial(nb_elems as nat),
        ensures
            d.remaining() == full_range(nb_elems as nat),
            d.rank() == idx,
    {
        let next_mod: u128 = if nb_elems == 0 {
            1
        } else {
            factorial128(nb_elems - 1)
        };
        proof {
            lemma_full_range_ascending(nb_elems as nat);
            if nb_elems > 0 {
                lemma_factorial_positive((nb_elems - 1) as nat);
            }
        }
        Self { elems: BitIndex32::new(nb_elems).unwrap(), next_mod, current_idx: idx }
    }

    /// How many values are still to come.
    pub fn nb_remaining(&self) -> (r: usize)
        ensures
            r == self.remaining().len(),
    {
        self.elems.nb_elements() as usize
    }

    /// Emits the next value: the leading digit of the rank picks it from
    /// the pool, smallest first, and the rest of the rank is left for the
    /// values that follow. Returns nothing once the pool is empty.
    pub fn next(&mut self) -> (r: Option<u8>)
        ensures
            old(self).remaining().len() == 0 ==> ({
                &&& r is None
                &&& final(self).remaining() == old(self).remaining()
                &&& final(self).rank() == old(self).rank()
            }),
            old(self).remaining().len() > 0 ==> ({
                let avail = old(self).remaining();
                let place = factorial((avail.len() - 1) as nat);
                let digit = (old(self).rank() / place) as int;
                &&& 0 <= digit < avail.len()
                &&& r == Some(avail[digit])
                &&& final(self).remaining() == avail.remove(digit)
                &&& final(self).remaining().len() == avail.len() - 1
                &&& final(self).rank() == old(self).rank() % place
                &&& old(self).pending() == seq![avail[digit]] + final(self).pending()
            }),
    {
        proof {
            use_type_invariant(&*self);
        }
        let mut elems: BitIndex32 = self.elems;
        let len: u8 = elems.nb_elements();
        if len == 0 {
            return None;
        }
        proof {
            let avail = pool32_contents(elems);
            let digit = self.current_idx as int / self.next_mod as int;
            lemma_step_arithmetic(len as nat, self.current_idx as nat);
            lemma_remove_ascending(avail, digit);
            lemma_remove_below_limit(avail, digit, pool32_limit(elems));
        }
        let bit_nb: u128 = self.current_idx / self.next_mod;
        let current_idx: u128 = self.current_idx - bit_nb * self.next_mod;
        let next_mod: u128 = self.next_mod / ((len as u128).saturating_sub(2) + 1);
        let value = elems.pop(bit_nb as u8);
        *self = Self { elems, next_mod, current_idx };
        value
    }

    /// Emits all the values that are still to come.
    pub fn into_vec(self) -> (v: Vec<u8>)
        ensures
            v@ == self.pending(),
    {
        let mut decoder = self;
        let mut out: Vec<u8> = Vec::new();
        let mut left: usize = decoder.nb_remaining();
        while left > 0
            invariant
                left == decoder.remaining().len(),
                out@ + decoder.pending() == self.pending(),
            decreases left,
        {
            let ghost before = out@;
            let ghost tail = decoder.pending();
            match decoder.next() {
                Some(value) => {
                    out.push(value);
                    assert(out@ + decoder.pending() =~= before + tail);
                },
                None => {},
            }
            left = left - 1;
        }
        assert(out@ + decoder.pending() =~= out@);
        out
    }
}

} // verus!
