//! Numbers as bytes, in both byte orders.

use vstd::prelude::*;

use crate::bits::{bits_value, byte_bits, lemma_byte_bits_len, lemma_unsigned_bits_len, lemma_unsigned_bits_value, unsigned_bits};

verus! {

/// The lowest `count` bytes of a number, most significant byte first.
pub open spec fn be_bytes(value: nat, count: nat) -> Seq<u8>
    decreases count,
{
    if count == 0 {
        Seq::empty()
    } else {
        be_bytes(value / 256, (count - 1) as nat).push((value % 256) as u8)
    }
}

/// The lowest `count` bytes of a number, least significant byte first.
pub open spec fn le_bytes(value: nat, count: nat) -> Seq<u8>
    decreases count,
{
    if count == 0 {
        Seq::empty()
    } else {
        seq![(value % 256) as u8] + le_bytes(value / 256, (count - 1) as nat)
    }
}

/// The number that bytes stand for, most significant byte first.
pub open spec fn be_value(bytes: Seq<u8>) -> nat
    decreases bytes.len(),
{
    if bytes.len() == 0 {
        0
    } else {
        256 * be_value(bytes.drop_last()) + bytes.last() as nat
    }
}

/// The number that bytes stand for, least significant byte first.
pub open spec fn le_value(bytes: Seq<u8>) -> nat
    decreases bytes.len(),
{
    if bytes.len() == 0 {
        0
    } else {
        bytes[0] as nat + 256 * le_value(bytes.drop_first())
    }
}

/// Two to the power of eight times `count`.
pub open spec fn byte_range(count: nat) -> nat
    decreases count,
{
    if count == 0 {
        1
    } else {
        256 * byte_range((count - 1) as nat)
    }
}

/// A number below the range of its bytes is read back from them.
pub proof fn law_be_bytes_read_back(value: nat, count: nat)
    requires
        value < byte_range(count),
    ensures
        be_bytes(value, count).len() == count,
        be_value(be_bytes(value, count)) == value,
    decreases count,
{
    if count > 0 {
        law_be_bytes_read_back(value / 256, (count - 1) as nat);
        let bytes = be_bytes(value, count);
        assert(bytes.drop_last() == be_bytes(value / 256, (count - 1) as nat));
    }
}

/// A number below the range of its bytes is read back from them.
pub proof fn law_le_bytes_read_back(value: nat, count: nat)
    requires
        value < byte_range(count),
    ensures
        le_bytes(value, count).len() == count,
        le_value(le_bytes(value, count)) == value,
    decreases count,
{
    if count > 0 {
        law_le_bytes_read_back(value / 256, (count - 1) as nat);
        let bytes = le_bytes(value, count);
        assert(bytes.drop_first() == le_bytes(value / 256, (count - 1) as nat));
    }
}

/// Appends the two bytes of a number, most significant byte first.
pub fn push_be16(bytes: &mut Vec<u8>, value: u16)
    ensures
        final(bytes)@ == old(bytes)@ + be_bytes(value as nat, 2),
{
    proof {
        reveal_with_fuel(be_bytes, 3);
    }
    bytes.push((value / 256) as u8);
    bytes.push((value % 256) as u8);
    assert(bytes@ == old(bytes)@ + be_bytes(value as nat, 2));
}

/// Appends bytes.
pub fn append_bytes(bytes: &mut Vec<u8>, more: &[u8])
    ensures
        final(bytes)@ == old(bytes)@ + more@,
{
    bytes.extend_from_slice(more);
    assert(bytes@ == old(bytes)@ + more@);
}

/// Appends the lowest `count` bytes of a number, most significant byte first.
pub fn push_be_bytes(bytes: &mut Vec<u8>, value: u64, count: u8)
    ensures
        final(bytes)@ == old(bytes)@ + be_bytes(value as nat, count as nat),
    decreases count,
{
    if count > 0 {
        push_be_bytes(bytes, value / 256, count - 1);
        bytes.push((value % 256) as u8);
    }
    assert(bytes@ == old(bytes)@ + be_bytes(value as nat, count as nat));
}

/// Appends the lowest `count` bytes of a number, least significant byte first.
pub fn push_le_bytes(bytes: &mut Vec<u8>, value: u64, count: u8)
    ensures
        final(bytes)@ == old(bytes)@ + le_bytes(value as nat, count as nat),
    decreases count,
{
    if count > 0 {
        bytes.push((value % 256) as u8);
        push_le_bytes(bytes, value / 256, count - 1);
    }
    assert(bytes@ == old(bytes)@ + le_bytes(value as nat, count as nat));
}

pub proof fn lemma_be_value_bound(bytes: Seq<u8>)
    ensures
        be_value(bytes) < byte_range(bytes.len()),
    decreases bytes.len(),
{
    if bytes.len() > 0 {
        lemma_be_value_bound(bytes.drop_last());
    }
}

pub proof fn lemma_le_value_bound(bytes: Seq<u8>)
    ensures
        le_value(bytes) < byte_range(bytes.len()),
    decreases bytes.len(),
{
    if bytes.len() > 0 {
        lemma_le_value_bound(bytes.drop_first());
    }
}

pub proof fn lemma_byte_ranges()
    ensures
        byte_range(0) == 1,
        byte_range(1) == 0x100,
        byte_range(2) == 0x1_0000,
        byte_range(3) == 0x100_0000,
        byte_range(4) == 0x1_0000_0000,
        byte_range(5) == 0x100_0000_0000,
        byte_range(6) == 0x1_0000_0000_0000,
        byte_range(7) == 0x100_0000_0000_0000,
        byte_range(8) == 0x1_0000_0000_0000_0000,
{
    reveal_with_fuel(byte_range, 9);
}

/// Reads up to eight bytes as a number, most significant byte first.
pub fn read_be(bytes: &[u8], start: usize, count: usize) -> (value: u64)
    requires
        count <= 8,
        start + count <= bytes@.len(),
    ensures
        value == be_value(bytes@.subrange(start as int, start + count)),
        value < byte_range(count as nat),
{
    let mut value: u64 = 0;
    let mut index: usize = 0;
    assert(bytes.len() == bytes@.len());
    while index < count
        invariant
            index <= count <= 8,
            start + count <= bytes@.len(),
            bytes@.len() <= usize::MAX,
            value == be_value(bytes@.subrange(start as int, start + index)),
        decreases count - index,
    {
        proof {
            let read = bytes@.subrange(start as int, start + index + 1);
            assert(read.drop_last() == bytes@.subrange(start as int, start + index));
            lemma_be_value_bound(read.drop_last());
            lemma_byte_ranges();
        }
        value = value * 256 + bytes[start + index] as u64;
        index = index + 1;
    }
    proof {
        lemma_be_value_bound(bytes@.subrange(start as int, start + count));
    }
    value
}

/// Reads up to eight bytes as a number, least significant byte first.
pub fn read_le(bytes: &[u8], start: usize, count: usize) -> (value: u64)
    requires
        count <= 8,
        start + count <= bytes@.len(),
    ensures
        value == le_value(bytes@.subrange(start as int, start + count)),
        value < byte_range(count as nat),
{
    let mut value: u64 = 0;
    let mut index: usize = count;
    assert(bytes.len() == bytes@.len());
    assert(bytes@.subrange(start + count, start + count).len() == 0);
    while index > 0
        invariant
            index <= count <= 8,
            start + count <= bytes@.len(),
            bytes@.len() <= usize::MAX,
            value == le_value(bytes@.subrange(start + index, start + count)),
        decreases index,
    {
        index = index - 1;
        proof {
            let read = bytes@.subrange(start + index, start + count);
            assert(read.drop_first() == bytes@.subrange(start + index + 1, start + count));
            lemma_le_value_bound(read.drop_first());
            lemma_byte_ranges();
        }
        value = value * 256 + bytes[start + index] as u64;
    }
    proof {
        lemma_le_value_bound(bytes@.subrange(start as int, start + count));
    }
    value
}

/// Whether two byte strings are the same.
pub fn bytes_equal(left: &[u8], right: &[u8]) -> (equal: bool)
    ensures
        equal == (left@ == right@),
{
    if left.len() != right.len() {
        return false;
    }
    let mut index: usize = 0;
    while index < left.len()
        invariant
            index <= left@.len(),
            left@.len() == right@.len(),
            forall|i: int| 0 <= i < index ==> left@[i] == right@[i],
        decreases left.len() - index,
    {
        if left[index] != right[index] {
            return false;
        }
        index = index + 1;
    }
    assert(left@ == right@);
    true
}

/// The bytes of a bit string, eight bits each; bits of an incomplete byte are left
/// out.
pub open spec fn packed(bits: Seq<bool>) -> Seq<u8> {
    Seq::new(
        bits.len() / 8,
        |i: int| bits_value(bits.subrange(8 * i, 8 * i + 8)) as u8,
    )
}

proof fn lemma_byte_of_bits(bytes: Seq<u8>, index: int)
    requires
        0 <= index < bytes.len(),
    ensures
        byte_bits(bytes).subrange(8 * index, 8 * index + 8) == unsigned_bits(
            bytes[index] as int,
            8,
        ),
    decreases bytes.len(),
{
    lemma_byte_bits_len(bytes);
    lemma_byte_bits_len(bytes.drop_last());
    lemma_unsigned_bits_len(bytes.last() as int, 8);
    if index < bytes.len() - 1 {
        lemma_byte_of_bits(bytes.drop_last(), index);
        assert(byte_bits(bytes).subrange(8 * index, 8 * index + 8) == byte_bits(
            bytes.drop_last(),
        ).subrange(8 * index, 8 * index + 8));
    } else {
        assert(byte_bits(bytes).subrange(8 * index, 8 * index + 8) == unsigned_bits(
            bytes[index] as int,
            8,
        ));
    }
}

/// Bytes are the only ones with their bits.
pub proof fn lemma_packed_bits(bytes: Seq<u8>)
    ensures
        packed(byte_bits(bytes)) == bytes,
{
    lemma_byte_bits_len(bytes);
    assert forall|i: int| 0 <= i < bytes.len() implies packed(byte_bits(bytes))[i] == bytes[i] by {
        lemma_byte_of_bits(bytes, i);
        vstd::arithmetic::power2::lemma2_to64();
        lemma_unsigned_bits_value(bytes[i] as int, 8);
    }
    assert(packed(byte_bits(bytes)) == bytes);
}

} // verus!
