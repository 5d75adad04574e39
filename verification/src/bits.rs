//! Bit strings: how numbers are laid out as bits, most significant bit first.

use vstd::arithmetic::power2::{lemma_pow2_pos, lemma_pow2_unfold, pow2};
use vstd::prelude::*;

verus! {

/// The lowest `count` bits of `value`, most significant bit first.
pub open spec fn unsigned_bits(value: int, count: nat) -> Seq<bool>
    decreases count,
{
    if count == 0 {
        Seq::empty()
    } else {
        unsigned_bits(value / 2, (count - 1) as nat).push(value % 2 == 1)
    }
}

/// The two's-complement pattern of `value` in `count` bits.
pub open spec fn signed_bits(value: int, count: nat) -> Seq<bool> {
    unsigned_bits(if value < 0 { value + pow2(count) } else { value }, count)
}

/// `value` zero bits followed by a one bit.
pub open spec fn unary_bits(value: nat) -> Seq<bool> {
    Seq::new(value, |i: int| false).push(true)
}

/// The bits of a byte string, byte after byte.
pub open spec fn byte_bits(bytes: Seq<u8>) -> Seq<bool>
    decreases bytes.len(),
{
    if bytes.len() == 0 {
        Seq::empty()
    } else {
        byte_bits(bytes.drop_last()) + unsigned_bits(bytes.last() as int, 8)
    }
}

/// Zero bits up to the next multiple of eight.
pub open spec fn padding_bits(written: nat) -> Seq<bool> {
    Seq::new(((8 - written % 8) % 8) as nat, |i: int| false)
}

/// The number that a bit string stands for.
pub open spec fn bits_value(bits: Seq<bool>) -> nat
    decreases bits.len(),
{
    if bits.len() == 0 {
        0
    } else {
        2 * bits_value(bits.drop_last()) + if bits.last() {
            1nat
        } else {
            0nat
        }
    }
}

/// The number that a two's-complement bit string stands for.
pub open spec fn signed_value(bits: Seq<bool>) -> int {
    if bits.len() > 0 && bits[0] {
        bits_value(bits) - pow2(bits.len())
    } else {
        bits_value(bits) as int
    }
}

/// `value` fits in `count` bits without a sign.
pub open spec fn fits_unsigned(value: int, count: nat) -> bool {
    0 <= value < pow2(count)
}

/// `value` fits in `count` bits of two's complement.
pub open spec fn fits_signed(value: int, count: nat) -> bool {
    count >= 1 && -pow2((count - 1) as nat) <= value < pow2((count - 1) as nat)
}

pub proof fn lemma_unsigned_bits_len(value: int, count: nat)
    ensures
        unsigned_bits(value, count).len() == count,
    decreases count,
{
    if count > 0 {
        lemma_unsigned_bits_len(value / 2, (count - 1) as nat);
    }
}

pub proof fn lemma_signed_bits_len(value: int, count: nat)
    ensures
        signed_bits(value, count).len() == count,
{
    lemma_unsigned_bits_len(if value < 0 { value + pow2(count) } else { value }, count);
}

pub proof fn lemma_byte_bits_len(bytes: Seq<u8>)
    ensures
        byte_bits(bytes).len() == 8 * bytes.len(),
    decreases bytes.len(),
{
    if bytes.len() > 0 {
        lemma_byte_bits_len(bytes.drop_last());
        lemma_unsigned_bits_len(bytes.last() as int, 8);
    }
}

pub proof fn lemma_byte_bits_concat(left: Seq<u8>, right: Seq<u8>)
    ensures
        byte_bits(left + right) == byte_bits(left) + byte_bits(right),
    decreases right.len(),
{
    if right.len() == 0 {
        assert(left + right == left);
        assert(byte_bits(left) + byte_bits(right) == byte_bits(left));
    } else {
        lemma_byte_bits_concat(left, right.drop_last());
        assert((left + right).drop_last() == left + right.drop_last());
        assert(byte_bits(left + right) == byte_bits(left) + byte_bits(right));
    }
}

/// A number that fits in its field is read back from the field.
pub proof fn lemma_unsigned_bits_value(value: int, count: nat)
    requires
        fits_unsigned(value, count),
    ensures
        bits_value(unsigned_bits(value, count)) == value,
    decreases count,
{
    if count == 0 {
        vstd::arithmetic::power2::lemma2_to64();
    } else {
        lemma_pow2_unfold(count);
        lemma_unsigned_bits_value(value / 2, (count - 1) as nat);
        let bits = unsigned_bits(value, count);
        assert(bits.drop_last() == unsigned_bits(value / 2, (count - 1) as nat));
    }
}

/// The first bit of a field is set exactly when the number is in the upper half.
proof fn lemma_unsigned_bits_first(value: int, count: nat)
    requires
        fits_unsigned(value, count),
        count >= 1,
    ensures
        unsigned_bits(value, count).len() == count,
        unsigned_bits(value, count)[0] == (value >= pow2((count - 1) as nat)),
    decreases count,
{
    lemma_unsigned_bits_len(value, count);
    lemma_pow2_unfold(count);
    if count == 1 {
        vstd::arithmetic::power2::lemma2_to64();
    } else {
        lemma_pow2_unfold((count - 1) as nat);
        lemma_unsigned_bits_first(value / 2, (count - 1) as nat);
        let bits = unsigned_bits(value, count);
        assert(bits[0] == unsigned_bits(value / 2, (count - 1) as nat)[0]);
    }
}

/// A signed number that fits in its field is read back from the field.
pub proof fn lemma_signed_bits_value(value: int, count: nat)
    requires
        fits_signed(value, count),
    ensures
        signed_value(signed_bits(value, count)) == value,
{
    lemma_pow2_unfold(count);
    let raw = if value < 0 { value + pow2(count) } else { value };
    lemma_unsigned_bits_value(raw, count);
    lemma_unsigned_bits_first(raw, count);
}

/// Two to the power of `exponent`.
pub fn power_of_two(exponent: u8) -> (power: u64)
    requires
        exponent < 64,
    ensures
        power == pow2(exponent as nat),
        power >= 1,
{
    proof {
        lemma_pow2_pos(exponent as nat);
        vstd::bits::lemma_u64_pow2_no_overflow(exponent as nat);
        vstd::bits::lemma_u64_shl_is_mul(1, exponent as u64);
    }
    1u64 << exponent
}

} // verus!
