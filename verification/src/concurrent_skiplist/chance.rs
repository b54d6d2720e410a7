//! The random draws that decide how high an element of a skip list reaches.

use vstd::prelude::*;
use vstd::std_specs::bits::{axiom_u32_trailing_zeros, u32_trailing_zeros};

verus! {

/// Draws 32 random bits with `rand::random::<u32>()`.
///
/// Trusted: nothing is claimed of the bits drawn. The draw uses the
/// thread's generator, which ends the program if the system has no
/// entropy to seed it.
#[verifier::external_body]
pub(crate) fn random_bits() -> (bits: u32) {
    rand::random::<u32>()
}

/// Tosses a fair coin with `rand::random::<bool>()`.
///
/// Trusted: nothing is claimed of the outcome. The toss uses the thread's
/// generator, which ends the program if the system has no entropy to seed
/// it.
#[verifier::external_body]
pub(crate) fn coin() -> (heads: bool) {
    rand::random::<bool>()
}

/// The greatest height of a skip list.
pub const MAX_HEIGHT: usize = 32;

/// The height that the drawn `bits` give an element: one more than the
/// number of zero bits below their lowest one bit, where bit 31 counts as
/// a one; so half of all draws give the height one, a quarter two, and none
/// more than `MAX_HEIGHT`.
pub open spec fn height_of(bits: u32) -> nat {
    (1 + u32_trailing_zeros(bits | 0x8000_0000u32)) as nat
}

/// The height that the drawn `bits` give an element.
pub fn height_from(bits: u32) -> (height: usize)
    ensures
        height == height_of(bits),
        1 <= height <= MAX_HEIGHT,
{
    let x: u32 = bits | 0x8000_0000u32;
    proof {
        assert(bits | 0x8000_0000u32 != 0) by (bit_vector);
        axiom_u32_trailing_zeros(x);
    }
    1 + x.trailing_zeros() as usize
}

} // verus!
