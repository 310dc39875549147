//! The element pools: the bit indices of the `bit_index` crate, which keep
//! the values that a decoder has not yet emitted.
//!
//! Nothing in this file is proved. Each contract below is a reading of the
//! `bit_index` source and is believed by the verifier as it stands.

use bit_index::{BitIndex16, BitIndex32, BitIndex8};
use vstd::prelude::*;

verus! {

/// `BitIndex8`, taken as it is: nothing of its inside is visible here.
#[verifier::external_type_specification]
#[verifier::external_body]
pub struct ExBitIndex8(BitIndex8);

/// `BitIndex16`, taken as it is: nothing of its inside is visible here.
#[verifier::external_type_specification]
#[verifier::external_body]
pub struct ExBitIndex16(BitIndex16);

/// `BitIndex32`, taken as it is: nothing of its inside is visible here.
#[verifier::external_type_specification]
#[verifier::external_body]
pub struct ExBitIndex32(BitIndex32);

/// The positions of the bits that are set in a `BitIndex8`, smallest first.
pub uninterp spec fn pool8_contents(p: BitIndex8) -> Seq<u8>;

/// The number of positions that a `BitIndex8` was made to track.
pub uninterp spec fn pool8_limit(p: BitIndex8) -> nat;

/// The positions of the bits that are set in a `BitIndex16`, smallest first.
pub uninterp spec fn pool16_contents(p: BitIndex16) -> Seq<u8>;

/// The number of positions that a `BitIndex16` was made to track.
pub uninterp spec fn pool16_limit(p: BitIndex16) -> nat;

/// The positions of the bits that are set in a `BitIndex32`, smallest first.
pub uninterp spec fn pool32_contents(p: BitIndex32) -> Seq<u8>;

/// The number of positions that a `BitIndex32` was made to track.
pub uninterp spec fn pool32_limit(p: BitIndex32) -> nat;

/// The sequence `0, 1, .., n-1`.
pub open spec fn full_range(n: nat) -> Seq<u8> {
    Seq::new(n, |i: int| i as u8)
}

/// Every value of `s` lies below `limit`.
pub open spec fn below_limit(s: Seq<u8>, limit: nat) -> bool {
    forall|i: int| 0 <= i < s.len() ==> (#[trigger] s[i]) < limit
}

/// `BitIndex8::new`: refuses more than 8 positions; otherwise the low
/// `nb_bits` bits are set and `nb_bits` is recorded as the limit.
pub assume_specification[ BitIndex8::new ](nb_bits: u8) -> (r: Result<BitIndex8, String>)
    ensures
        nb_bits > 8 ==> r is Err,
        nb_bits <= 8 ==> r is Ok && pool8_contents(r->Ok_0) == full_range(nb_bits as nat)
            && pool8_limit(r->Ok_0) == nb_bits,
;

/// `BitIndex8::nb_elements`: the number of bits that are set.
pub assume_specification[ BitIndex8::nb_elements ](p: &BitIndex8) -> (r: u8)
    ensures
        r == pool8_contents(*p).len(),
;

/// `BitIndex8::pop`: panics when `idx` is not below the limit, or when the
/// bit it finds is not; otherwise clears the `idx`-th smallest set bit and
/// returns its position, or returns nothing and clears nothing when fewer
/// than `idx + 1` bits are set.
pub assume_specification[ BitIndex8::pop ](p: &mut BitIndex8, idx: u8) -> (r: Option<u8>)
    requires
        idx < pool8_limit(*old(p)),
        below_limit(pool8_contents(*old(p)), pool8_limit(*old(p))),
    ensures
        pool8_limit(*final(p)) == pool8_limit(*old(p)),
        idx < pool8_contents(*old(p)).len() ==> r == Some(pool8_contents(*old(p))[idx as int])
            && pool8_contents(*final(p)) == pool8_contents(*old(p)).remove(idx as int),
        idx >= pool8_contents(*old(p)).len() ==> r is None && pool8_contents(*final(p))
            == pool8_contents(*old(p)),
;

/// `BitIndex16::new`: refuses more than 16 positions; otherwise the low
/// `nb_bits` bits are set and `nb_bits` is recorded as the limit.
pub assume_specification[ BitIndex16::new ](nb_bits: u8) -> (r: Result<BitIndex16, String>)
    ensures
        nb_bits > 16 ==> r is Err,
        nb_bits <= 16 ==> r is Ok && pool16_contents(r->Ok_0) == full_range(nb_bits as nat)
            && pool16_limit(r->Ok_0) == nb_bits,
;

/// `BitIndex16::nb_elements`: the number of bits that are set.
pub assume_specification[ BitIndex16::nb_elements ](p: &BitIndex16) -> (r: u8)
    ensures
        r == pool16_contents(*p).len(),
;

/// `BitIndex16::pop`: panics when `idx` is not below the limit, or when the
/// bit it finds is not; otherwise clears the `idx`-th smallest set bit and
/// returns its position, or returns nothing and clears nothing when fewer
/// than `idx + 1` bits are set.
pub assume_specification[ BitIndex16::pop ](p: &mut BitIndex16, idx: u8) -> (r: Option<u8>)
    requires
        idx < pool16_limit(*old(p)),
        below_limit(pool16_contents(*old(p)), pool16_limit(*old(p))),
    ensures
        pool16_limit(*final(p)) == pool16_limit(*old(p)),
        idx < pool16_contents(*old(p)).len() ==> r == Some(pool16_contents(*old(p))[idx as int])
            && pool16_contents(*final(p)) == pool16_contents(*old(p)).remove(idx as int),
        idx >= pool16_contents(*old(p)).len() ==> r is None && pool16_contents(*final(p))
            == pool16_contents(*old(p)),
;

/// `BitIndex32::new`: refuses more than 32 positions; otherwise the low
/// `nb_bits` bits are set and `nb_bits` is recorded as the limit.
pub assume_specification[ BitIndex32::new ](nb_bits: u8) -> (r: Result<BitIndex32, String>)
    ensures
        nb_bits > 32 ==> r is Err,
        nb_bits <= 32 ==> r is Ok && pool32_contents(r->Ok_0) == full_range(nb_bits as nat)
            && pool32_limit(r->Ok_0) == nb_bits,
;

/// `BitIndex32::nb_elements`: the number of bits that are set.
pub assume_specification[ BitIndex32::nb_elements ](p: &BitIndex32) -> (r: u8)
    ensures
        r == pool32_contents(*p).len(),
;

/// `BitIndex32::pop`: panics when `idx` is not below the limit, or when the
/// bit it finds is not; otherwise clears the `idx`-th smallest set bit and
/// returns its position, or returns nothing and clears nothing when fewer
/// than `idx + 1` bits are set.
pub assume_specification[ BitIndex32::pop ](p: &mut BitIndex32, idx: u8) -> (r: Option<u8>)
    requires
        idx < pool32_limit(*old(p)),
        below_limit(pool32_contents(*old(p)), pool32_limit(*old(p))),
    ensures
        pool32_limit(*final(p)) == pool32_limit(*old(p)),
        idx < pool32_contents(*old(p)).len() ==> r == Some(pool32_contents(*old(p))[idx as int])
            && pool32_contents(*final(p)) == pool32_contents(*old(p)).remove(idx as int),
        idx >= pool32_contents(*old(p)).len() ==> r is None && pool32_contents(*final(p))
            == pool32_contents(*old(p)),
;

} // verus!
