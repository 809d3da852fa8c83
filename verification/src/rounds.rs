//! The two rounds that every finalizer is made of, a multiply and an
//! xor-shift, and how each is undone.
use vstd::prelude::*;

verus! {

/// The odd multiplier of every revision.
pub const MULTIPLIER: u64 = 0xbea225f9eb34556d;

/// The word that undoes it: their product is 1, modulo `2^64`.
pub const MULTIPLIER_INVERSE: u64 = 0xdd01f46a7e6ffc65;

/// `x` with its bits from `k` upwards xor-ed onto the bits below them.
pub open spec fn xorshift(x: u64, k: u64) -> u64 {
    x ^ (x >> k)
}

/// A multiply by the multiplier and one by its inverse undo each other.
pub proof fn lemma_multiply_undone(x: u64)
    by (bit_vector)
    ensures
        x.wrapping_mul(MULTIPLIER).wrapping_mul(MULTIPLIER_INVERSE) == x,
        x.wrapping_mul(MULTIPLIER_INVERSE).wrapping_mul(MULTIPLIER) == x,
{
}

/// An xor-shift by half a word or more undoes itself.
pub proof fn lemma_far_xorshift_undone(x: u64)
    by (bit_vector)
    ensures
        xorshift(xorshift(x, 32), 32) == x,
        xorshift(xorshift(x, 33), 33) == x,
        xorshift(xorshift(x, 39), 39) == x,
{
}

/// An xor-shift by 29 bits is undone by xor-ing the shifts by 29 and by 58
/// bits onto the word, and undoes that in turn.
pub proof fn lemma_xorshift_29_undone(x: u64)
    by (bit_vector)
    ensures
        xorshift(x, 29) ^ (xorshift(x, 29) >> 29) ^ (xorshift(x, 29) >> 58) == x,
        xorshift(x ^ (x >> 29) ^ (x >> 58), 29) == x,
{
}

} // verus!
