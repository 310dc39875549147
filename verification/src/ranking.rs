//! The factorial number system: which arrangement of a pool of values stands
//! at a given rank, and why the ranks list the arrangements in
//! lexicographic order, each exactly once.

use crate::factorial::{factorial, lemma_factorial_positive};
use crate::pool::{below_limit, full_range};
use vstd::multiset::Multiset;
use vstd::arithmetic::div_mod::{lemma_fundamental_div_mod, lemma_fundamental_div_mod_converse};
use vstd::prelude::*;
use vstd::seq_lib::{lemma_multiset_commutative, to_multiset_remove};

verus! {

/// The values of `s` grow strictly from each position to the next.
pub open spec fn ascending(s: Seq<u8>) -> bool {
    forall|i: int, j: int| 0 <= i < j < s.len() ==> s[i] < s[j]
}

/// The arrangement of the values `avail` that stands at `rank`: its first
/// value is chosen by the leading digit of `rank` in the factorial number
/// system, and the rest is the arrangement of the values left over at the
/// rank that the remaining digits give. Ranks that have no arrangement
/// give the empty sequence.
pub open spec fn arrange(avail: Seq<u8>, rank: nat) -> Seq<u8>
    decreases avail.len(),
{
    if avail.len() == 0 {
        Seq::empty()
    } else {
        let place = factorial((avail.len() - 1) as nat);
        let digit = (rank / place) as int;
        if 0 <= digit < avail.len() {
            seq![avail[digit]] + arrange(avail.remove(digit), rank % place)
        } else {
            Seq::empty()
        }
    }
}

/// The permutation of `0, .., n-1` at rank `idx`.
pub open spec fn decode(n: nat, idx: nat) -> Seq<u8> {
    arrange(full_range(n), idx)
}

/// `p` holds `n` values below `n`, none of them twice.
pub open spec fn is_permutation(p: Seq<u8>, n: nat) -> bool {
    &&& p.len() == n
    &&& p.no_duplicates()
    &&& forall|i: int| 0 <= i < p.len() ==> (#[trigger] p[i]) < n
}

/// `p` and `q` agree before position `k`, where `p` holds the smaller value.
pub open spec fn differ_at(p: Seq<u8>, q: Seq<u8>, k: int) -> bool {
    &&& 0 <= k < p.len()
    &&& k < q.len()
    &&& p.subrange(0, k) == q.subrange(0, k)
    &&& p[k] < q[k]
}

/// `p` comes before `q` in lexicographic order, by a position where they
/// differ.
pub open spec fn lex_less(p: Seq<u8>, q: Seq<u8>) -> bool {
    exists|k: int| differ_at(p, q, k)
}

/// The rank at which `arrange` places `p` among the arrangements of
/// `avail`.
pub open spec fn rank_of(avail: Seq<u8>, p: Seq<u8>) -> nat
    decreases p.len(),
{
    if p.len() == 0 {
        0
    } else {
        let digit = avail.index_of(p[0]);
        (digit * factorial((p.len() - 1) as nat) + rank_of(avail.remove(digit), p.drop_first()))
            as nat
    }
}

/// The rank of the permutation `p` of `0, .., n-1`.
pub open spec fn encode(n: nat, p: Seq<u8>) -> nat {
    rank_of(full_range(n), p)
}

/// A rank below `len!` splits into a digit below `len` and a rest below
/// `(len-1)!`.
pub proof fn lemma_digit(len: nat, rank: nat)
    requires
        len >= 1,
        rank < factorial(len),
    ensures
        factorial((len - 1) as nat) >= 1,
        rank / factorial((len - 1) as nat) < len,
        rank % factorial((len - 1) as nat) < factorial((len - 1) as nat),
        rank == factorial((len - 1) as nat) * (rank / factorial((len - 1) as nat)) + rank
            % factorial((len - 1) as nat),
{
    let place = factorial((len - 1) as nat);
    lemma_factorial_positive((len - 1) as nat);
    lemma_fundamental_div_mod(rank as int, place as int);
    assert(rank / place < len) by (nonlinear_arith)
        requires
            place >= 1,
            rank < len * place,
            rank == place * (rank / place) + rank % place,
            rank % place >= 0,
    ;
}

/// The numbers of one decoding step: the digit and the rest of a rank
/// below `len!`, and the place value of the digit that follows.
pub proof fn lemma_step_arithmetic(len: nat, rank: nat)
    requires
        len >= 1,
        rank < factorial(len),
    ensures
        ({
            let place = factorial((len - 1) as nat);
            let digit = rank / place;
            let shrink: nat = if len >= 2 {
                (len - 1) as nat
            } else {
                1
            };
            &&& place >= 1
            &&& digit < len
            &&& digit * place <= rank
            &&& rank - digit * place == rank % place
            &&& rank % place < place
            &&& place / shrink >= 1
            &&& len >= 2 ==> place / shrink == factorial((len - 2) as nat)
        }),
{
    let place = factorial((len - 1) as nat);
    let digit = rank / place;
    lemma_digit(len, rank);
    assert(digit * place <= rank && rank - digit * place == rank % place) by (nonlinear_arith)
        requires
            rank == place * digit + rank % place,
            rank % place >= 0,
    ;
    if len >= 2 {
        let lower = factorial((len - 2) as nat);
        let shrink = (len - 1) as nat;
        lemma_factorial_positive((len - 2) as nat);
        assert(place == shrink * lower);
        assert(place / shrink == lower) by (nonlinear_arith)
            requires
                place == shrink * lower,
                shrink >= 1,
        ;
    } else {
        assert(place == 1) by {
            reveal_with_fuel(factorial, 2);
        }
        assert(place / 1 == 1) by (nonlinear_arith)
            requires
                place == 1,
        ;
    }
}

/// Taking a value out of a sequence below a limit leaves it below that
/// limit.
pub proof fn lemma_remove_below_limit(s: Seq<u8>, i: int, limit: nat)
    requires
        below_limit(s, limit),
        0 <= i < s.len(),
    ensures
        below_limit(s.remove(i), limit),
{
    s.remove_ensures(i);
    let r = s.remove(i);
    assert forall|k: int| 0 <= k < r.len() implies (#[trigger] r[k]) < limit by {
        let j = if k < i { k } else { k + 1 };
        assert(r[k] == s[j]);
    }
}

/// A digit below `len` and a rest below `(len-1)!` make a rank below
/// `len!` that splits into that digit and that rest again.
pub proof fn lemma_compose(len: nat, digit: nat, rest: nat)
    requires
        len >= 1,
        digit < len,
        rest < factorial((len - 1) as nat),
    ensures
        digit * factorial((len - 1) as nat) + rest < factorial(len),
        (digit * factorial((len - 1) as nat) + rest) / factorial((len - 1) as nat) == digit,
        (digit * factorial((len - 1) as nat) + rest) % factorial((len - 1) as nat) == rest,
{
    let place = factorial((len - 1) as nat);
    let rank = digit * place + rest;
    assert(rank < len * place) by (nonlinear_arith)
        requires
            rank == digit * place + rest,
            rest < place,
            digit < len,
    ;
    assert(rank == place * digit + rest) by (nonlinear_arith)
        requires
            rank == digit * place + rest,
    ;
    lemma_fundamental_div_mod_converse(rank as int, place as int, digit as int, rest as int);
}

/// Taking a value out of an ascending sequence leaves it ascending.
pub proof fn lemma_remove_ascending(s: Seq<u8>, i: int)
    requires
        ascending(s),
        0 <= i < s.len(),
    ensures
        ascending(s.remove(i)),
        s.remove(i).len() == s.len() - 1,
{
    s.remove_ensures(i);
    let r = s.remove(i);
    assert forall|a: int, b: int| 0 <= a < b < r.len() implies r[a] < r[b] by {
        let a2 = if a < i { a } else { a + 1 };
        let b2 = if b < i { b } else { b + 1 };
        assert(r[a] == s[a2]);
        assert(r[b] == s[b2]);
    }
}

/// `0, .., n-1` is ascending, as long as its values fit in a byte.
pub proof fn lemma_full_range_ascending(n: nat)
    requires
        n <= 256,
    ensures
        ascending(full_range(n)),
        full_range(n).len() == n,
{
}

/// An arrangement holds the values it was made of, each as often as the
/// pool held it.
pub proof fn lemma_arrange_rearranges(avail: Seq<u8>, rank: nat)
    requires
        rank < factorial(avail.len()),
    ensures
        arrange(avail, rank).len() == avail.len(),
        arrange(avail, rank).to_multiset() == avail.to_multiset(),
    decreases avail.len(),
{
    broadcast use vstd::multiset::group_multiset_axioms;

    if avail.len() == 0 {
        assert(avail =~= Seq::<u8>::empty());
    } else {
        let place = factorial((avail.len() - 1) as nat);
        let digit = (rank / place) as int;
        lemma_digit(avail.len(), rank);
        let rest = avail.remove(digit);
        avail.remove_ensures(digit);
        lemma_arrange_rearranges(rest, rank % place);
        let tail = arrange(rest, rank % place);
        let head = seq![avail[digit]];
        lemma_multiset_commutative(head, tail);
        to_multiset_remove(avail, digit);
        assert(head =~= Seq::<u8>::empty().push(avail[digit]));
        vstd::seq_lib::to_multiset_build(Seq::<u8>::empty(), avail[digit]);
        avail.to_multiset_ensures();
        let all = avail.to_multiset();
        let x = avail[digit];
        assert(all.count(x) > 0);
        Seq::<u8>::empty().to_multiset_ensures();
        assert(Seq::<u8>::empty().to_multiset() =~= Multiset::<u8>::empty());
        assert(head.to_multiset() =~= Multiset::<u8>::empty().insert(x));
        assert(tail.to_multiset() == all.remove(x));
        assert((head + tail).to_multiset() =~= head.to_multiset().add(tail.to_multiset()));
        assert(head.to_multiset().add(all.remove(x)) =~= all);
        assert(arrange(avail, rank) == head + tail);
    }
}

/// Every rank below `n!` decodes to a permutation of `0, .., n-1`: `n`
/// values below `n`, none of them twice, and none of them missing.
pub proof fn lemma_decode_is_permutation(n: nat, idx: nat)
    requires
        n <= 256,
        idx < factorial(n),
    ensures
        is_permutation(decode(n, idx), n),
        forall|v: u8| v < n ==> decode(n, idx).contains(v),
        decode(n, idx).to_multiset() == full_range(n).to_multiset(),
{
    let range = full_range(n);
    let p = decode(n, idx);
    lemma_arrange_rearranges(range, idx);
    lemma_full_range_ascending(n);
    assert(range.no_duplicates());
    range.lemma_multiset_has_no_duplicates();
    p.lemma_multiset_has_no_duplicates_conv();
    assert forall|i: int| 0 <= i < p.len() implies (#[trigger] p[i]) < n by {
        vstd::seq_lib::to_multiset_contains(p, p[i]);
        vstd::seq_lib::to_multiset_contains(range, p[i]);
        assert(p.contains(p[i]));
        let j = choose|j: int| 0 <= j < range.len() && range[j] == p[i];
        assert(range[j] == j);
    }
    assert forall|v: u8| v < n implies p.contains(v) by {
        vstd::seq_lib::to_multiset_contains(p, v);
        vstd::seq_lib::to_multiset_contains(range, v);
        assert(range[v as int] == v);
        assert(range.contains(v));
    }
}

/// Of two ranks, the smaller gives the arrangement that comes first in
/// lexicographic order.
pub proof fn lemma_arrange_ordered(avail: Seq<u8>, a: nat, b: nat)
    requires
        ascending(avail),
        a < b < factorial(avail.len()),
    ensures
        lex_less(arrange(avail, a), arrange(avail, b)),
    decreases avail.len(),
{
    let len = avail.len();
    assert(len >= 1) by {
        reveal_with_fuel(factorial, 2);
    }
    let place = factorial((len - 1) as nat);
    lemma_digit(len, a);
    lemma_digit(len, b);
    let da = (a / place) as int;
    let db = (b / place) as int;
    assert(da <= db) by (nonlinear_arith)
        requires
            place >= 1,
            a < b,
            a == place * da + a % place,
            b == place * db + b % place,
            0 <= a % place < place,
            0 <= b % place < place,
    ;
    let pa = arrange(avail, a);
    let pb = arrange(avail, b);
    if da < db {
        assert(pa.subrange(0, 0) =~= pb.subrange(0, 0));
        assert(differ_at(pa, pb, 0));
    } else {
        let rest = avail.remove(da);
        lemma_remove_ascending(avail, da);
        lemma_arrange_ordered(rest, a % place, b % place);
        let ta = arrange(rest, a % place);
        let tb = arrange(rest, b % place);
        let k = choose|k: int| differ_at(ta, tb, k);
        assert(pa.subrange(0, k + 1) =~= seq![avail[da]] + ta.subrange(0, k));
        assert(pb.subrange(0, k + 1) =~= seq![avail[da]] + tb.subrange(0, k));
        assert(differ_at(pa, pb, k + 1));
    }
}

/// Of two ranks below `n!`, the smaller decodes to the permutation that
/// comes first in lexicographic order.
pub proof fn lemma_decode_ordered(n: nat, a: nat, b: nat)
    requires
        n <= 256,
        a < b < factorial(n),
    ensures
        lex_less(decode(n, a), decode(n, b)),
{
    lemma_full_range_ascending(n);
    lemma_arrange_ordered(full_range(n), a, b);
}

/// Two ranks below `n!` that decode to the same permutation are the same
/// rank.
pub proof fn lemma_decode_injective(n: nat, a: nat, b: nat)
    requires
        n <= 256,
        a < factorial(n),
        b < factorial(n),
        decode(n, a) == decode(n, b),
    ensures
        a == b,
{
    if a < b {
        lemma_decode_ordered(n, a, b);
    } else if b < a {
        lemma_decode_ordered(n, b, a);
    }
}

/// An arrangement `p` of the values `avail` has a rank, and stands at it.
pub proof fn lemma_arrange_rank_of(avail: Seq<u8>, p: Seq<u8>)
    requires
        ascending(avail),
        p.len() == avail.len(),
        p.no_duplicates(),
        forall|i: int| 0 <= i < p.len() ==> avail.contains(#[trigger] p[i]),
    ensures
        rank_of(avail, p) < factorial(avail.len()),
        arrange(avail, rank_of(avail, p)) == p,
    decreases p.len(),
{
    let len = avail.len();
    if len == 0 {
        assert(p =~= Seq::<u8>::empty());
    } else {
        let place = factorial((len - 1) as nat);
        assert(avail.contains(p[0]));
        let digit = avail.index_of(p[0]);
        assert(0 <= digit < len && avail[digit] == p[0]);
        let rest = avail.remove(digit);
        let q = p.drop_first();
        lemma_remove_ascending(avail, digit);
        avail.remove_ensures(digit);
        assert forall|i: int| 0 <= i < q.len() implies rest.contains(#[trigger] q[i]) by {
            assert(q[i] == p[i + 1]);
            assert(avail.contains(p[i + 1]));
            let j = choose|j: int| 0 <= j < avail.len() && avail[j] == p[i + 1];
            assert(j != digit);
            if j < digit {
                assert(rest[j] == avail[j]);
            } else {
                assert(rest[j - 1] == avail[j]);
            }
        }
        lemma_arrange_rank_of(rest, q);
        let sub = rank_of(rest, q);
        lemma_compose(len, digit as nat, sub);
        assert(rank_of(avail, p) == digit * place + sub);
        assert(arrange(avail, rank_of(avail, p)) =~= seq![p[0]] + q);
        assert(seq![p[0]] + q =~= p);
    }
}

/// Every permutation of `0, .., n-1` is decoded from a rank below `n!`:
/// the one that `encode` gives.
pub proof fn lemma_decode_surjective(n: nat, p: Seq<u8>)
    requires
        n <= 256,
        is_permutation(p, n),
    ensures
        encode(n, p) < factorial(n),
        decode(n, encode(n, p)) == p,
{
    let range = full_range(n);
    lemma_full_range_ascending(n);
    assert forall|i: int| 0 <= i < p.len() implies range.contains(#[trigger] p[i]) by {
        assert(range[p[i] as int] == p[i]);
    }
    lemma_arrange_rank_of(range, p);
}

/// Decoding and encoding undo each other: the rank of the permutation
/// that stands at `idx` is `idx`.
pub proof fn lemma_encode_decode(n: nat, idx: nat)
    requires
        n <= 256,
        idx < factorial(n),
    ensures
        encode(n, decode(n, idx)) == idx,
{
    let p = decode(n, idx);
    lemma_decode_is_permutation(n, idx);
    lemma_decode_surjective(n, p);
    lemma_decode_injective(n, encode(n, p), idx);
}

/// Of two sequences, at most one comes before the other, and none comes
/// before itself.
pub proof fn lemma_lex_less_asymmetric(p: Seq<u8>, q: Seq<u8>)
    requires
        lex_less(p, q),
    ensures
        !lex_less(q, p),
        p != q,
{
    let k = choose|k: int| differ_at(p, q, k);
    if lex_less(q, p) {
        let j = choose|j: int| differ_at(q, p, j);
        if k < j {
            assert(q.subrange(0, j)[k] == p.subrange(0, j)[k]);
        } else if j < k {
            assert(p.subrange(0, k)[j] == q.subrange(0, k)[j]);
        }
    }
}

/// The rank is the place in lexicographic order: the permutations of
/// `0, .., n-1` that come before the one at rank `idx` are those of the
/// ranks below `idx`.
pub proof fn lemma_decode_position(n: nat, idx: nat, p: Seq<u8>)
    requires
        n <= 256,
        idx < factorial(n),
        is_permutation(p, n),
    ensures
        lex_less(p, decode(n, idx)) <==> encode(n, p) < idx,
{
    let rank = encode(n, p);
    lemma_decode_surjective(n, p);
    if rank < idx {
        lemma_decode_ordered(n, rank, idx);
    } else if rank > idx {
        lemma_decode_ordered(n, idx, rank);
        lemma_lex_less_asymmetric(decode(n, idx), p);
    } else {
        if lex_less(p, decode(n, idx)) {
            lemma_lex_less_asymmetric(p, decode(n, idx));
        }
    }
}

/// Rank zero leaves the values in their order.
pub proof fn lemma_arrange_first(avail: Seq<u8>)
    ensures
        arrange(avail, 0) == avail,
    decreases avail.len(),
{
    if avail.len() > 0 {
        let place = factorial((avail.len() - 1) as nat);
        lemma_factorial_positive((avail.len() - 1) as nat);
        lemma_compose(avail.len(), 0, 0);
        assert(0nat / place == 0 && 0nat % place == 0);
        avail.remove_ensures(0);
        lemma_arrange_first(avail.remove(0));
        assert(arrange(avail, 0) =~= seq![avail[0]] + avail.remove(0));
        assert(seq![avail[0]] + avail.remove(0) =~= avail);
    } else {
        assert(arrange(avail, 0) =~= avail);
    }
}

/// The last rank turns the values around.
pub proof fn lemma_arrange_last(avail: Seq<u8>)
    ensures
        factorial(avail.len()) >= 1,
        arrange(avail, (factorial(avail.len()) - 1) as nat) == avail.reverse(),
    decreases avail.len(),
{
    let len = avail.len();
    lemma_factorial_positive(len);
    if len > 0 {
        let place = factorial((len - 1) as nat);
        lemma_factorial_positive((len - 1) as nat);
        let last = (factorial(len) - 1) as nat;
        lemma_compose(len, (len - 1) as nat, (place - 1) as nat);
        assert(last == (len - 1) * place + (place - 1)) by (nonlinear_arith)
            requires
                last == len * place - 1,
        ;
        let rest = avail.remove(len - 1);
        avail.remove_ensures(len - 1);
        lemma_arrange_last(rest);
        assert(arrange(avail, last) =~= seq![avail[len - 1]] + rest.reverse());
        assert(seq![avail[len - 1]] + rest.reverse() =~= avail.reverse());
    } else {
        assert(arrange(avail, 0) =~= avail.reverse());
    }
}

/// Rank zero decodes to `0, 1, .., n-1`, the last rank to `n-1, .., 1, 0`,
/// and the one rank of no elements to the empty sequence.
pub proof fn lemma_decode_ends(n: nat)
    ensures
        decode(n, 0) == full_range(n),
        factorial(n) >= 1,
        decode(n, (factorial(n) - 1) as nat) == full_range(n).reverse(),
        decode(0, 0) == Seq::<u8>::empty(),
{
    lemma_arrange_first(full_range(n));
    lemma_arrange_last(full_range(n));
    lemma_arrange_first(full_range(0));
    assert(full_range(0) =~= Seq::<u8>::empty());
}

} // verus!
