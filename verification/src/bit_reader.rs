//! Reading numbers out of bytes, bit by bit.

use vstd::arithmetic::power2::{lemma_pow2_unfold, pow2};
use vstd::prelude::*;

use crate::bits::{bits_value, byte_bits, lemma_byte_bits_len, power_of_two, unsigned_bits};
use crate::reading::{read_signed, read_unary, read_unsigned};

verus! {

/// The bits of bytes from a place on.
pub open spec fn bits_at(bytes: Seq<u8>, place: nat) -> Seq<bool> {
    byte_bits(bytes).skip(place as int)
}

/// Bytes whose bits can be counted, and a place among them.
pub open spec fn is_place(bytes: Seq<u8>, place: usize) -> bool {
    place <= 8 * bytes.len() <= usize::MAX
}

/// A place that comes before other bits.
pub open spec fn is_before(bytes: Seq<u8>, place: usize, rest: Seq<bool>) -> bool {
    is_place(bytes, place) && rest == bits_at(bytes, place as nat)
}

proof fn lemma_bit_of_byte(value: u8, place: int)
    requires
        0 <= place < 8,
    ensures
        unsigned_bits(value as int, 8).len() == 8,
        place == 0 ==> unsigned_bits(value as int, 8)[place] == (value / 128 % 2 == 1),
        place == 1 ==> unsigned_bits(value as int, 8)[place] == (value / 64 % 2 == 1),
        place == 2 ==> unsigned_bits(value as int, 8)[place] == (value / 32 % 2 == 1),
        place == 3 ==> unsigned_bits(value as int, 8)[place] == (value / 16 % 2 == 1),
        place == 4 ==> unsigned_bits(value as int, 8)[place] == (value / 8 % 2 == 1),
        place == 5 ==> unsigned_bits(value as int, 8)[place] == (value / 4 % 2 == 1),
        place == 6 ==> unsigned_bits(value as int, 8)[place] == (value / 2 % 2 == 1),
        place == 7 ==> unsigned_bits(value as int, 8)[place] == (value % 2 == 1),
{
    reveal_with_fuel(unsigned_bits, 9);
}

proof fn lemma_bit_of_bytes(bytes: Seq<u8>, index: int, place: int)
    requires
        0 <= index < bytes.len(),
        0 <= place < 8,
    ensures
        byte_bits(bytes).len() == 8 * bytes.len(),
        byte_bits(bytes)[8 * index + place] == unsigned_bits(bytes[index] as int, 8)[place],
    decreases bytes.len(),
{
    lemma_byte_bits_len(bytes);
    lemma_byte_bits_len(bytes.drop_last());
    crate::bits::lemma_unsigned_bits_len(bytes.last() as int, 8);
    if index < bytes.len() - 1 {
        lemma_bit_of_bytes(bytes.drop_last(), index, place);
        assert(bytes.drop_last()[index] == bytes[index]);
    }
}

/// The bit at a place, if there is one.
pub fn read_bit(bytes: &[u8], place: usize) -> (bit: Option<bool>)
    requires
        is_place(bytes@, place),
    ensures
        match bit {
            Some(found) => place < 8 * bytes@.len() && found == byte_bits(bytes@)[place as int],
            None => place == 8 * bytes@.len(),
        },
{
    let index: usize = place / 8;
    if index >= bytes.len() {
        return None;
    }
    let byte: u8 = bytes[index];
    let inner: usize = place % 8;
    proof {
        lemma_bit_of_bytes(bytes@, index as int, inner as int);
        lemma_bit_of_byte(byte, inner as int);
    }
    let divisor: u8 = if inner == 0 {
        128
    } else if inner == 1 {
        64
    } else if inner == 2 {
        32
    } else if inner == 3 {
        16
    } else if inner == 4 {
        8
    } else if inner == 5 {
        4
    } else if inner == 6 {
        2
    } else {
        1
    };
    Some(byte / divisor % 2 == 1)
}

proof fn lemma_one_more_bit(bits: Seq<bool>, count: nat)
    requires
        count < bits.len(),
    ensures
        bits_value(bits.take(count as int + 1)) == 2 * bits_value(bits.take(count as int)) + if bits[count as int] {
            1nat
        } else {
            0nat
        },
{
    assert(bits.take(count as int + 1).drop_last() == bits.take(count as int));
}

/// Reads a number without a sign.
pub fn read_number(bytes: &[u8], place: usize, count: u32) -> (read: Option<(u64, usize)>)
    requires
        is_place(bytes@, place),
        count <= 40,
    ensures
        match read_unsigned(bits_at(bytes@, place as nat), count as nat) {
            None => read is None,
            Some((value, rest)) => read matches Some((found, next)) && {
                &&& found == value
                &&& found < pow2(count as nat)
                &&& next == place + count
                &&& is_before(bytes@, next, rest)
            },
        },
{
    let ghost bits = bits_at(bytes@, place as nat);
    proof {
        lemma_byte_bits_len(bytes@);
        vstd::arithmetic::power2::lemma2_to64();
        assert(bits.take(0) == Seq::<bool>::empty());
    }
    if (8 * bytes.len() - place) < count as usize {
        return None;
    }
    let mut value: u64 = 0;
    let mut index: u32 = 0;
    while index < count
        invariant
            is_place(bytes@, place),
            index <= count <= 40,
            bits == bits_at(bytes@, place as nat),
            byte_bits(bytes@).len() == 8 * bytes@.len(),
            count <= bits.len(),
            value == bits_value(bits.take(index as int)),
            value < pow2(index as nat),
        decreases count - index,
    {
        proof {
            lemma_one_more_bit(bits, index as nat);
            lemma_pow2_unfold((index + 1) as nat);
            vstd::arithmetic::power2::lemma_pow2_strictly_increases(index as nat, 41);
            vstd::arithmetic::power2::lemma2_to64_rest();
            assert(bits[index as int] == byte_bits(bytes@)[place + index]);
        }
        let bit: u64 = match read_bit(bytes, place + index as usize) {
            Some(true) => 1,
            _ => 0,
        };
        value = 2 * value + bit;
        index = index + 1;
    }
    let next: usize = place + count as usize;
    assert(bits.skip(count as int) == bits_at(bytes@, next as nat));
    Some((value, next))
}

/// Reads a number in two's complement.
pub fn read_signed_number(bytes: &[u8], place: usize, count: u32) -> (read: Option<(i64, usize)>)
    requires
        is_place(bytes@, place),
        count <= 40,
    ensures
        match read_signed(bits_at(bytes@, place as nat), count as nat) {
            None => read is None,
            Some((value, rest)) => read matches Some((found, next)) && {
                &&& found == value
                &&& is_before(bytes@, next, rest)
            },
        },
{
    proof {
        lemma_byte_bits_len(bytes@);
    }
    match read_number(bytes, place, count) {
        None => None,
        Some((value, next)) => {
            let negative = match read_bit(bytes, place) {
                Some(bit) => bit && count > 0,
                None => false,
            };
            proof {
                let bits = bits_at(bytes@, place as nat);
                if count > 0 {
                    assert(bits.take(count as int)[0] == byte_bits(bytes@)[place as int]);
                }
                vstd::arithmetic::power2::lemma2_to64_rest();
                if count < 40 {
                    vstd::arithmetic::power2::lemma_pow2_strictly_increases(count as nat, 40);
                }
            }
            if negative {
                let range: u64 = power_of_two(count as u8);
                Some((value as i64 - range as i64, next))
            } else {
                Some((value as i64, next))
            }
        },
    }
}

/// Reads the zero bits up to a one bit.
pub fn read_zeros(bytes: &[u8], place: usize) -> (read: Option<(usize, usize)>)
    requires
        is_place(bytes@, place),
    ensures
        match read_unary(bits_at(bytes@, place as nat)) {
            None => read is None,
            Some((value, rest)) => read matches Some((found, next)) && {
                &&& found == value
                &&& is_before(bytes@, next, rest)
            },
        },
{
    let ghost bits = bits_at(bytes@, place as nat);
    let mut next: usize = place;
    proof {
        lemma_byte_bits_len(bytes@);
    }
    loop
        invariant
            is_place(bytes@, place),
            place <= next <= 8 * bytes@.len(),
            byte_bits(bytes@).len() == 8 * bytes@.len(),
            bits == bits_at(bytes@, place as nat),
            match read_unary(bits_at(bytes@, next as nat)) {
                None => read_unary(bits) is None,
                Some((value, rest)) => read_unary(bits) == Some(
                    ((value + (next - place)) as nat, rest),
                ),
            },
        decreases 8 * bytes@.len() - next,
    {
        let ghost here = bits_at(bytes@, next as nat);
        match read_bit(bytes, next) {
            None => {
                return None;
            },
            Some(bit) => {
                assert(here[0] == bit);
                assert(here.skip(1) == bits_at(bytes@, (next + 1) as nat));
                if bit {
                    return Some((next - place, next + 1));
                }
                next = next + 1;
            },
        }
    }
}

} // verus!
