//! Bit-level access to integers, through the `bit_field` crate.

use bit_field::BitField;
use vstd::prelude::*;

verus! {

/// The value of bit `bit` of `byte`, bit 0 being the least significant.
pub open spec fn bit_is_set(byte: u8, bit: u8) -> bool {
    byte & (1u8 << bit) != 0
}

/// `byte` with bit `bit` set to `value` and the other bits kept.
pub open spec fn byte_with_bit(byte: u8, bit: u8, value: bool) -> u8 {
    if value {
        byte | (1u8 << bit)
    } else {
        byte & !(1u8 << bit)
    }
}

/// Bits `lo..hi` of `value`, moved down to bit 0.
pub open spec fn bit_range(value: u32, lo: u32, hi: u32) -> u32 {
    if lo == hi {
        0
    } else {
        ((value << ((32 - hi) as u32)) >> ((32 - hi) as u32)) >> lo
    }
}

/// Calls `BitField::get_bit` on a `u8`. The crate documents the result as the
/// bit at that index, index 0 being the least significant, and panics on an
/// index beyond the type's width.
#[verifier::external_body]
pub(crate) fn get_bit_u8(byte: u8, bit: u8) -> (r: bool)
    requires
        bit < 8,
    ensures
        r == bit_is_set(byte, bit),
{
    byte.get_bit(usize::from(bit))
}

/// Calls `BitField::set_bit` on a `u8`. The crate documents that the bit at
/// the index takes the value and nothing else changes; it panics on an index
/// beyond the type's width.
#[verifier::external_body]
pub(crate) fn set_bit_u8(byte: u8, bit: u8, value: bool) -> (r: u8)
    requires
        bit < 8,
    ensures
        r == byte_with_bit(byte, bit, value),
{
    let mut b = byte;
    b.set_bit(usize::from(bit), value);
    b
}

/// Reading a bit after writing one: the written bit has the new value, every
/// other bit the old one.
pub proof fn lemma_bit_after_set(byte: u8, bit: u8, value: bool, other: u8)
    requires
        bit < 8,
        other < 8,
    ensures
        bit_is_set(byte_with_bit(byte, bit, value), other) == (if other == bit {
            value
        } else {
            bit_is_set(byte, other)
        }),
{
    assert((byte | (1u8 << bit)) & (1u8 << other) != 0 <==> (other == bit || byte & (1u8 << other)
        != 0)) by (bit_vector)
        requires
            bit < 8,
            other < 8,
    ;
    assert((byte & !(1u8 << bit)) & (1u8 << other) != 0 <==> (other != bit && byte & (1u8 << other)
        != 0)) by (bit_vector)
        requires
            bit < 8,
            other < 8,
    ;
}

/// A bit that was clear, once set and cleared again, leaves the byte as it
/// was.
pub proof fn lemma_bit_set_then_cleared(byte: u8, bit: u8)
    requires
        bit < 8,
        !bit_is_set(byte, bit),
    ensures
        byte_with_bit(byte_with_bit(byte, bit, true), bit, false) == byte,
{
    assert((byte | (1u8 << bit)) & !(1u8 << bit) == byte) by (bit_vector)
        requires
            bit < 8,
            byte & (1u8 << bit) == 0,
    ;
}

/// Calls `BitField::get_bits` on a `u32` with the range `lo..hi`. The crate
/// documents the result as those bits, shifted down to bit 0; it panics when
/// the range leaves the type's width or runs backwards.
#[verifier::external_body]
pub(crate) fn get_bits_u32(value: u32, lo: u32, hi: u32) -> (r: u32)
    requires
        lo < 32,
        lo <= hi <= 32,
    ensures
        r == bit_range(value, lo, hi),
{
    value.get_bits((lo as usize)..(hi as usize))
}

/// The four byte-wide ranges of a `u32`, as quotients and remainders.
pub proof fn lemma_byte_ranges(value: u32)
    ensures
        bit_range(value, 24, 32) == value / 0x100_0000,
        bit_range(value, 16, 24) == (value / 0x1_0000) % 0x100,
        bit_range(value, 8, 16) == (value / 0x100) % 0x100,
        bit_range(value, 0, 8) == value % 0x100,
        bit_range(value, 24, 32) < 0x100,
{
    assert(((value << 0u32) >> 0u32) >> 24u32 == value / 0x100_0000) by (bit_vector);
    assert(((value << 8u32) >> 8u32) >> 16u32 == (value / 0x1_0000) % 0x100) by (bit_vector);
    assert(((value << 16u32) >> 16u32) >> 8u32 == (value / 0x100) % 0x100) by (bit_vector);
    assert(((value << 24u32) >> 24u32) >> 0u32 == value % 0x100) by (bit_vector);
    assert(value / 0x100_0000 < 0x100) by (bit_vector);
}


/// Bits `lo..hi` of a 16-bit `value`, moved down to bit 0.
pub open spec fn bit_range16(value: u16, lo: u16, hi: u16) -> u16 {
    if lo == hi {
        0
    } else {
        ((value << ((16 - hi) as u16)) >> ((16 - hi) as u16)) >> lo
    }
}

/// Whether `value` has no bit set above its lowest `hi - lo`.
pub open spec fn fits_range16(value: u16, lo: u16, hi: u16) -> bool {
    (lo == hi && value == 0) || (value << ((16 - (hi - lo)) as u16)) >> ((16 - (hi - lo)) as u16)
        == value
}

/// `word` with its bits `lo..hi` replaced by the low bits of `value`.
pub open spec fn word_with_bits(word: u16, lo: u16, hi: u16, value: u16) -> u16 {
    if lo == hi {
        word
    } else {
        (word & !((((!0u16 << ((16 - hi) as u16)) >> ((16 - hi) as u16)) >> lo) << lo)) | (value
            << lo)
    }
}

/// Calls `BitField::get_bits` on a `u16` with the range `lo..hi`. The crate
/// documents the result as those bits, shifted down to bit 0; it panics when
/// the range leaves the type's width or runs backwards.
#[verifier::external_body]
pub(crate) fn get_bits_u16(value: u16, lo: u16, hi: u16) -> (r: u16)
    requires
        lo < 16,
        lo <= hi <= 16,
    ensures
        r == bit_range16(value, lo, hi),
{
    value.get_bits((lo as usize)..(hi as usize))
}

/// Calls `BitField::set_bits` on a `u16` with the range `lo..hi`. The crate
/// documents that those bits take the low bits of `value` and the others
/// stay; it panics when the range leaves the type's width or runs
/// backwards, and when `value` has a bit set above the range's length.
#[verifier::external_body]
pub(crate) fn set_bits_u16(word: u16, lo: u16, hi: u16, value: u16) -> (r: u16)
    requires
        lo < 16,
        lo <= hi <= 16,
        fits_range16(value, lo, hi),
    ensures
        r == word_with_bits(word, lo, hi, value),
{
    let mut w = word;
    w.set_bits((lo as usize)..(hi as usize), value);
    w
}

/// The two bytes of a 16-bit word, as remainder and quotient.
pub proof fn lemma_word_halves(value: u16)
    ensures
        bit_range16(value, 0, 8) == value % 0x100,
        bit_range16(value, 8, 16) == value / 0x100,
{
    assert(((value << 8u16) >> 8u16) >> 0u16 == value % 0x100) by (bit_vector);
    assert(((value << 0u16) >> 0u16) >> 8u16 == value / 0x100) by (bit_vector);
}

/// A word put together from two bytes, the low one first.
pub proof fn lemma_word_from_halves(lo: u8, hi: u8)
    ensures
        fits_range16(lo as u16, 0, 8),
        fits_range16(hi as u16, 8, 16),
        word_with_bits(word_with_bits(0, 0, 8, lo as u16), 8, 16, hi as u16) == lo as u16 + 0x100
            * (hi as u16),
{
    let l = lo as u16;
    let h = hi as u16;
    assert((l << 8u16) >> 8u16 == l) by (bit_vector)
        requires
            l < 0x100,
    ;
    assert((h << 8u16) >> 8u16 == h) by (bit_vector)
        requires
            h < 0x100,
    ;
    let first = (0u16 & !((((!0u16 << 8u16) >> 8u16) >> 0u16) << 0u16)) | (l << 0u16);
    assert(first == l) by (bit_vector)
        requires
            first == (0u16 & !((((!0u16 << 8u16) >> 8u16) >> 0u16) << 0u16)) | (l << 0u16),
    ;
    let second = (l & !((((!0u16 << 0u16) >> 0u16) >> 8u16) << 8u16)) | (h << 8u16);
    assert(second == l + 0x100 * h) by (bit_vector)
        requires
            second == (l & !((((!0u16 << 0u16) >> 0u16) >> 8u16) << 8u16)) | (h << 8u16),
            l < 0x100,
            h < 0x100,
    ;
}

/// The four bits of a block address that go into the drive register.
pub proof fn lemma_top_nibble(value: u32)
    ensures
        bit_range(value, 24, 28) == (value / 0x100_0000) % 0x10,
{
    assert(((value << 4u32) >> 4u32) >> 24u32 == (value / 0x100_0000) % 0x10) by (bit_vector);
}

} // verus!
