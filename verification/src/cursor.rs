//! The cursor over a permutation space as a mathematical object: a rank
//! that only moves forward, what each step yields, and what holds of a
//! run of steps.

use crate::factorial::factorial;
use crate::ranking::{
    decode, encode, is_permutation, lemma_decode_injective, lemma_decode_surjective,
};
use vstd::prelude::*;

verus! {

/// The state of a cursor: the number of elements it arranges and the rank
/// of the permutation it yields next.
pub struct Cursor {
    pub nb_elems: nat,
    pub next_idx: nat,
}

/// `a + b`, held at `cap` where it would pass it.
pub open spec fn clamped_sum(a: nat, b: nat, cap: nat) -> nat {
    if a + b > cap {
        cap
    } else {
        a + b
    }
}

/// What a vector that may be absent holds.
pub open spec fn contents(r: Option<Vec<u8>>) -> Option<Seq<u8>> {
    match r {
        Some(v) => Some(v@),
        None => None,
    }
}

/// The permutation of `0, .., n-1` at rank `idx`, where there is one.
pub open spec fn lookup(n: nat, idx: nat) -> Option<Seq<u8>> {
    if idx < factorial(n) {
        Some(decode(n, idx))
    } else {
        None
    }
}

impl Cursor {
    /// The cursor before its first step.
    pub open spec fn fresh(n: nat) -> Cursor {
        Cursor { nb_elems: n, next_idx: 0 }
    }

    /// The rank that a step over `step` permutations asks for, in a width
    /// whose largest value is `cap`.
    pub open spec fn target(self, step: nat, cap: nat) -> nat {
        clamped_sum(self.next_idx, step, cap)
    }

    /// What a step over `step` permutations yields.
    pub open spec fn yields(self, step: nat, cap: nat) -> Option<Seq<u8>> {
        lookup(self.nb_elems, self.target(step, cap))
    }

    /// The cursor after a step over `step` permutations: it stands behind
    /// the rank that was asked for, whether or not that rank exists.
    pub open spec fn advance(self, step: nat, cap: nat) -> Cursor {
        Cursor { nb_elems: self.nb_elems, next_idx: clamped_sum(self.target(step, cap), 1, cap) }
    }

    /// Nothing is left to yield.
    pub open spec fn exhausted(self) -> bool {
        self.next_idx >= factorial(self.nb_elems)
    }

    /// How many permutations are left to yield.
    pub open spec fn remaining(self) -> nat {
        if self.exhausted() {
            0
        } else {
            (factorial(self.nb_elems) - self.next_idx) as nat
        }
    }

    /// The cursor after `k` steps to the next permutation.
    pub open spec fn after(self, k: nat, cap: nat) -> Cursor
        decreases k,
    {
        if k == 0 {
            self
        } else {
            self.after((k - 1) as nat, cap).advance(0, cap)
        }
    }
}

/// A cursor never moves backwards.
pub proof fn lemma_advance_monotonic(c: Cursor, step: nat, cap: nat)
    requires
        c.next_idx <= cap,
    ensures
        c.advance(step, cap).next_idx >= c.next_idx,
        c.advance(step, cap).next_idx <= cap,
        c.advance(step, cap).nb_elems == c.nb_elems,
{
}

/// An exhausted cursor yields nothing and stays exhausted, whatever the
/// step.
pub proof fn lemma_exhausted_is_final(c: Cursor, step: nat, cap: nat)
    requires
        c.exhausted(),
        factorial(c.nb_elems) <= cap,
    ensures
        c.yields(step, cap) is None,
        c.advance(step, cap).exhausted(),
{
}

/// A step that misses exhausts the cursor.
pub proof fn lemma_miss_exhausts(c: Cursor, step: nat, cap: nat)
    requires
        c.yields(step, cap) is None,
        factorial(c.nb_elems) <= cap,
    ensures
        c.advance(step, cap).exhausted(),
{
}

/// A step that yields a permutation leaves `step + 1` fewer to come.
pub proof fn lemma_step_consumes(c: Cursor, step: nat, cap: nat)
    requires
        c.yields(step, cap) is Some,
        factorial(c.nb_elems) <= cap,
    ensures
        c.advance(step, cap).remaining() + step + 1 == c.remaining(),
{
}

/// A fresh cursor for `n` elements, stepped to the next permutation `k`
/// times, has yielded the ranks `0, .., k-1` in that order: it stands at
/// rank `k` and yields the permutation of that rank next, as long as `k`
/// is below `n!`. From `n!` steps on it yields nothing.
pub proof fn lemma_steps_enumerate(n: nat, cap: nat, k: nat)
    requires
        factorial(n) <= cap,
    ensures
        Cursor::fresh(n).after(k, cap).nb_elems == n,
        Cursor::fresh(n).after(k, cap).next_idx <= cap,
        k <= factorial(n) ==> Cursor::fresh(n).after(k, cap).next_idx == k,
        k < factorial(n) ==> Cursor::fresh(n).after(k, cap).yields(0, cap) == Some(decode(n, k)),
        k >= factorial(n) ==> Cursor::fresh(n).after(k, cap).exhausted() && Cursor::fresh(n).after(
            k,
            cap,
        ).yields(0, cap) is None,
    decreases k,
{
    if k > 0 {
        lemma_steps_enumerate(n, cap, (k - 1) as nat);
    }
}

/// Every permutation `p` of `0, .., n-1` is yielded by exactly one step of
/// a fresh cursor that is stepped to the next permutation again and again:
/// the step behind as many steps as the rank of `p` says.
pub proof fn lemma_steps_yield_each_once(n: nat, cap: nat, p: Seq<u8>)
    requires
        n <= 256,
        factorial(n) <= cap,
        is_permutation(p, n),
    ensures
        encode(n, p) < factorial(n),
        Cursor::fresh(n).after(encode(n, p), cap).yields(0, cap) == Some(p),
        forall|k: nat| #[trigger]
            Cursor::fresh(n).after(k, cap).yields(0, cap) == Some(p) ==> k == encode(n, p),
{
    let rank = encode(n, p);
    lemma_decode_surjective(n, p);
    lemma_steps_enumerate(n, cap, rank);
    assert forall|k: nat| #[trigger]
        Cursor::fresh(n).after(k, cap).yields(0, cap) == Some(p) implies k == rank by {
        lemma_steps_enumerate(n, cap, k);
        if k < factorial(n) {
            lemma_decode_injective(n, k, rank);
        }
    }
}

/// After `k` steps that each yielded a permutation, a fresh cursor for `n`
/// elements has `n! - k` left.
pub proof fn lemma_remaining_after_steps(n: nat, cap: nat, k: nat)
    requires
        factorial(n) <= cap,
        k <= factorial(n),
    ensures
        Cursor::fresh(n).after(k, cap).remaining() == factorial(n) - k,
{
    lemma_steps_enumerate(n, cap, k);
}

} // verus!
