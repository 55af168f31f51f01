//! Facts about reading and writing fixed-width fields inside a `u64` word.

use vstd::prelude::*;
use vstd::arithmetic::power2::{pow2, lemma2_to64, lemma2_to64_rest, lemma_pow2_pos};
use vstd::bits::lemma_u64_shr_is_div;

verus! {

/// The mask that keeps the low `width` bits of a word (`1 <= width <= 64`).
pub open spec fn width_mask(width: u64) -> u64 {
    u64::MAX >> ((64 - width) as u64)
}

/// The field of `mask` bits found at bit `offset` of `word`.
pub open spec fn read_field(word: u64, offset: u64, mask: u64) -> u64 {
    (word >> offset) & mask
}

/// `word` with the field of `mask` bits at bit `offset` replaced by `value`.
pub open spec fn write_field(word: u64, offset: u64, mask: u64, value: u64) -> u64 {
    (word & !(mask << offset)) | (value << offset)
}

/// Writing a field and reading it back gives the value written.
pub proof fn lemma_write_read_same(word: u64, offset: u64, width: u64, value: u64)
    by (bit_vector)
    requires
        1 <= width <= 64,
        offset + width <= 64,
        value <= u64::MAX >> ((64 - width) as u64),
    ensures
        ((((word & !((u64::MAX >> ((64 - width) as u64)) << offset)) | (value << offset)) >> offset)
            & (u64::MAX >> ((64 - width) as u64))) == value,
{
}

/// Writing a field leaves a field that does not overlap it unchanged.
pub proof fn lemma_write_read_other(word: u64, offset: u64, other: u64, width: u64, value: u64)
    by (bit_vector)
    requires
        1 <= width <= 64,
        offset + width <= 64,
        other + width <= 64,
        offset + width <= other || other + width <= offset,
        value <= u64::MAX >> ((64 - width) as u64),
    ensures
        ((((word & !((u64::MAX >> ((64 - width) as u64)) << offset)) | (value << offset)) >> other)
            & (u64::MAX >> ((64 - width) as u64))) == ((word >> other) & (u64::MAX >> ((64 - width) as u64))),
{
}

/// Writing a field leaves a field of another width that does not overlap it
/// unchanged.
pub proof fn lemma_write_read_apart(
    word: u64,
    offset: u64,
    width: u64,
    value: u64,
    other: u64,
    other_width: u64,
)
    by (bit_vector)
    requires
        1 <= width <= 64,
        1 <= other_width <= 64,
        offset + width <= 64,
        other + other_width <= 64,
        offset + width <= other || other + other_width <= offset,
        value <= u64::MAX >> ((64 - width) as u64),
    ensures
        ((((word & !((u64::MAX >> ((64 - width) as u64)) << offset)) | (value << offset)) >> other)
            & (u64::MAX >> ((64 - other_width) as u64))) == ((word >> other) & (u64::MAX >> ((64
            - other_width) as u64))),
{
}

/// A value that fits the mask is its own field at offset zero.
pub proof fn lemma_read_fresh_word(value: u64, width: u64)
    by (bit_vector)
    requires
        1 <= width <= 64,
        value <= u64::MAX >> ((64 - width) as u64),
    ensures
        (value >> 0u64) & (u64::MAX >> ((64 - width) as u64)) == value,
{
}

/// Every field of the zero word is zero.
pub proof fn lemma_read_zero_word(offset: u64, mask: u64)
    by (bit_vector)
    ensures
        (0u64 >> offset) & mask == 0,
{
}

proof fn lemma_mask_is_shift(value: u64, width: u64)
    by (bit_vector)
    requires
        1 <= width < 64,
    ensures
        (value <= u64::MAX >> ((64 - width) as u64)) == ((value >> width) == 0),
{
}

/// A value fits a field of `width` bits exactly when it is below `2^width`.
pub proof fn lemma_width_mask_pow2(value: u64, width: u64)
    requires
        1 <= width <= 64,
    ensures
        (value <= width_mask(width)) <==> (value as int) < pow2(width as nat),
{
    lemma2_to64();
    lemma2_to64_rest();
    if width == 64 {
        assert(u64::MAX >> 0u64 == u64::MAX) by (bit_vector);
    } else {
        lemma_mask_is_shift(value, width);
        lemma_u64_shr_is_div(value, width);
        lemma_pow2_pos(width as nat);
        if (value as int) < pow2(width as nat) {
            assert((value as nat) / pow2(width as nat) == 0) by (nonlinear_arith)
                requires (value as nat) < pow2(width as nat);
        } else {
            assert((value as nat) / pow2(width as nat) >= 1) by (nonlinear_arith)
                requires (value as nat) >= pow2(width as nat), pow2(width as nat) > 0;
        }
    }
}

} // verus!
