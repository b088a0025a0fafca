//! Bit access on integers, through the `bit_field` crate.
use vstd::prelude::*;
use bit_field::BitField;

verus! {

/// `BitField::get_bit` on a `u8`: whether bit `bit` (0 is the least
/// significant) is set. The crate asserts `bit < 8`.
#[verifier::external_body]
pub(crate) fn u8_get_bit(x: u8, bit: usize) -> (b: bool)
    requires
        bit < 8,
    ensures
        b == (x & (1u8 << bit) != 0),
{
    x.get_bit(bit)
}

/// `BitField::set_bit` on a `u8`: sets bit `bit` when `value` holds and
/// clears it otherwise. The crate asserts `bit < 8`.
#[verifier::external_body]
pub(crate) fn u8_set_bit(x: &mut u8, bit: usize, value: bool)
    requires
        bit < 8,
    ensures
        *final(x) == if value {
            *old(x) | (1u8 << bit)
        } else {
            *old(x) & !(1u8 << bit)
        },
{
    x.set_bit(bit, value);
}

/// `BitField::set_bit` on a `u16`: sets bit `bit` when `value` holds and
/// clears it otherwise. The crate asserts `bit < 16`.
#[verifier::external_body]
pub(crate) fn u16_set_bit(x: &mut u16, bit: usize, value: bool)
    requires
        bit < 16,
    ensures
        *final(x) == if value {
            *old(x) | (1u16 << bit)
        } else {
            *old(x) & !(1u16 << bit)
        },
{
    x.set_bit(bit, value);
}

/// `BitField::set_bits` on a `u16` with the range `start..end`: the bits of
/// the range take the value `value`, the others keep theirs. The crate
/// asserts that the range is non-empty, lies within the 16 bits and that
/// `value` fits in it.
#[verifier::external_body]
pub(crate) fn u16_set_bits(x: &mut u16, start: usize, end: usize, value: u16)
    requires
        start < end <= 16,
        (value as int) < vstd::arithmetic::power2::pow2((end - start) as nat),
    ensures
        *final(x) == (*old(x) & !((((!0u16 << ((16 - end) as u16)) >> ((16 - end) as u16)) >> (start as u16)) << (start as u16)))
            | (value << (start as u16)),
{
    x.set_bits(start..end, value);
}

} // verus!
