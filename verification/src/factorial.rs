//! The factorial, as a mathematical function and in each tier's width.

use vstd::prelude::*;

verus! {

/// `n!`, the number of ways to arrange `n` distinct things.
pub open spec fn factorial(n: nat) -> nat
    decreases n,
{
    if n == 0 {
        1
    } else {
        n * factorial((n - 1) as nat)
    }
}

/// A factorial is never zero.
pub proof fn lemma_factorial_positive(n: nat)
    ensures
        factorial(n) >= 1,
    decreases n,
{
    if n > 0 {
        lemma_factorial_positive((n - 1) as nat);
        assert(n * factorial((n - 1) as nat) >= 1) by (nonlinear_arith)
            requires
                n >= 1,
                factorial((n - 1) as nat) >= 1,
        ;
    }
}

/// The factorial does not decrease as its argument grows.
pub proof fn lemma_factorial_monotonic(a: nat, b: nat)
    requires
        a <= b,
    ensures
        factorial(a) <= factorial(b),
    decreases b,
{
    if a < b {
        lemma_factorial_monotonic(a, (b - 1) as nat);
        lemma_factorial_positive((b - 1) as nat);
        assert(b * factorial((b - 1) as nat) >= factorial((b - 1) as nat)) by (nonlinear_arith)
            requires
                b >= 1,
        ;
    }
}

/// Dividing `n!` by `n` gives `(n-1)!`.
pub proof fn lemma_factorial_quotient(n: nat)
    requires
        n >= 1,
    ensures
        factorial(n) / n == factorial((n - 1) as nat),
{
    let lower = factorial((n - 1) as nat);
    assert((n * lower) / n == lower) by (nonlinear_arith)
        requires
            n >= 1,
            lower >= 0,
    ;
}

/// The largest factorial of each tier, written out.
pub proof fn lemma_factorial_bounds()
    ensures
        factorial(8) == 40320,
        factorial(16) == 20922789888000,
        factorial(32) == 263130836933693530167218012160000000,
{
    reveal_with_fuel(factorial, 9);
    assert(factorial(8) == 40320);
    assert(factorial(16) == 20922789888000) by {
        assert(factorial(16) == 16 * (15 * (14 * (13 * (12 * (11 * (10 * (9 * factorial(8)))))))));
    }
    assert(factorial(24) == 620448401733239439360000) by {
        assert(factorial(24) == 24 * (23 * (22 * (21 * (20 * (19 * (18 * (17 * factorial(
            16,
        )))))))));
    }
    assert(factorial(32) == 263130836933693530167218012160000000) by {
        assert(factorial(32) == 32 * (31 * (30 * (29 * (28 * (27 * (26 * (25 * factorial(
            24,
        )))))))));
    }
}

/// Each tier counts its permutations in its width: `n!` fits in 16 bits
/// up to 8 elements, in 64 bits up to 16 and in 128 bits up to 32.
pub proof fn lemma_factorial_fits(n: nat)
    ensures
        n <= 8 ==> factorial(n) <= u16::MAX,
        n <= 16 ==> factorial(n) <= u64::MAX,
        n <= 32 ==> factorial(n) <= u128::MAX,
{
    lemma_factorial_bounds();
    if n <= 8 {
        lemma_factorial_monotonic(n, 8);
    }
    if n <= 16 {
        lemma_factorial_monotonic(n, 16);
    }
    if n <= 32 {
        lemma_factorial_monotonic(n, 32);
    }
}

/// `n!` in 16 bits, for the tier of at most 8 elements.
pub fn factorial16(nb_elems: u8) -> (r: u16)
    requires
        nb_elems <= 8,
    ensures
        r == factorial(nb_elems as nat),
{
    let mut r: u16 = 1;
    let mut i: u8 = 0;
    while i < nb_elems
        invariant
            i <= nb_elems <= 8,
            r == factorial(i as nat),
        decreases nb_elems - i,
    {
        i = i + 1;
        proof {
            lemma_factorial_fits(i as nat);
            assert(r * i == factorial(i as nat)) by (nonlinear_arith)
                requires
                    i >= 1,
                    r == factorial((i - 1) as nat),
                    factorial(i as nat) == i * factorial((i - 1) as nat),
            ;
        }
        r = r * (i as u16);
    }
    r
}

/// `n!` in 64 bits, for the tier of at most 16 elements.
pub fn factorial64(nb_elems: u8) -> (r: u64)
    requires
        nb_elems <= 16,
    ensures
        r == factorial(nb_elems as nat),
{
    let mut r: u64 = 1;
    let mut i: u8 = 0;
    while i < nb_elems
        invariant
            i <= nb_elems <= 16,
            r == factorial(i as nat),
        decreases nb_elems - i,
    {
        i = i + 1;
        proof {
            lemma_factorial_fits(i as nat);
            assert(r * i == factorial(i as nat)) by (nonlinear_arith)
                requires
                    i >= 1,
                    r == factorial((i - 1) as nat),
                    factorial(i as nat) == i * factorial((i - 1) as nat),
            ;
        }
        r = r * (i as u64);
    }
    r
}

/// `n!` in 128 bits, for the tier of at most 32 elements.
pub fn factorial128(nb_elems: u8) -> (r: u128)
    requires
        nb_elems <= 32,
    ensures
        r == factorial(nb_elems as nat),
{
    let mut r: u128 = 1;
    let mut i: u8 = 0;
    while i < nb_elems
        invariant
            i <= nb_elems <= 32,
            r == factorial(i as nat),
        decreases nb_elems - i,
    {
        i = i + 1;
        proof {
            lemma_factorial_fits(i as nat);
            assert(r * i == factorial(i as nat)) by (nonlinear_arith)
                requires
                    i >= 1,
                    r == factorial((i - 1) as nat),
                    factorial(i as nat) == i * factorial((i - 1) as nat),
            ;
        }
        r = r * (i as u128);
    }
    r
}

} // verus!
