//! A very basic pseudo-random generator of bytes.
use vstd::prelude::*;

verus! {

/// The seed the generator starts from.
pub const INITIAL_SEED: u8 = 42;

/// One step of the generator: the seed is shifted right by one bit, and
/// when the bit shifted out is 0 the result is xored with `0xB8`.
pub open spec fn spec_next_seed(seed: u8) -> u8 {
    if seed % 2 == 0 {
        (seed / 2) ^ 0xB8u8
    } else {
        seed / 2
    }
}

/// Advances `seed` by one step and returns its new value.
pub fn random_u8(seed: &mut u8) -> (r: u8)
    ensures
        *final(seed) == spec_next_seed(*old(seed)),
        r == *final(seed),
{
    let s0: u8 = *seed;
    let shifted: u8 = s0 >> 1u8;
    assert(shifted == s0 / 2 && ((s0 & 1u8 == 1u8) == (s0 % 2 == 1))) by (bit_vector)
        requires
            shifted == s0 >> 1u8,
    ;
    let next: u8 = if s0 & 1u8 == 1u8 {
        shifted
    } else {
        shifted ^ 0xB8u8
    };
    *seed = next;
    next
}

/// Two different seeds never step to the same seed.
pub proof fn lemma_next_seed_injective(a: u8, b: u8)
    requires
        a != b,
    ensures
        spec_next_seed(a) != spec_next_seed(b),
{
    assert(a != b ==> (if a % 2 == 0 { (a / 2) ^ 0xB8u8 } else { a / 2 }) != (if b % 2 == 0 {
        (b / 2) ^ 0xB8u8
    } else {
        b / 2
    })) by (bit_vector);
}

} // verus!
