//! What the bytes of samples stand for.

use vstd::arithmetic::power2::{lemma2_to64, lemma_pow2_pos, lemma_pow2_unfold, pow2};
use vstd::prelude::*;

use crate::bits::fits_signed;
use crate::bytes::{be_value, byte_range, law_be_bytes_read_back, law_le_bytes_read_back, le_value, lemma_be_value_bound, lemma_byte_ranges, lemma_le_value_bound};
use crate::pcm::{container_bits, encoded_sample, is_container, mask_is_supported, ordered_bytes, ordered_value, ordinary_mask, pattern, pattern_value, raised, rebased, set_bits, stored_samples, ByteOrder, PcmEnvelope};
use crate::raw::{order_of, raw_envelope, RawPcmByteOrder, RawPcmDescriptor};
use crate::sample_source::is_storable;

verus! {

/// The number that up to four bytes say without a sign, the most significant one first.
pub open spec fn weighed(bytes: Seq<u8>) -> int {
    if bytes.len() == 1 {
        bytes[0] as int
    } else if bytes.len() == 2 {
        bytes[0] * 0x100 + bytes[1]
    } else if bytes.len() == 3 {
        bytes[0] * 0x1_0000 + bytes[1] * 0x100 + bytes[2]
    } else {
        bytes[0] * 0x100_0000 + bytes[1] * 0x1_0000 + bytes[2] * 0x100 + bytes[3]
    }
}

/// How many numbers so many bytes tell apart.
pub open spec fn span_of(count: nat) -> int {
    if count == 1 {
        0x100
    } else if count == 2 {
        0x1_0000
    } else if count == 3 {
        0x100_0000
    } else {
        0x1_0000_0000
    }
}

/// Bytes say a number in two's complement, the most significant one first.
pub open spec fn says(bytes: Seq<u8>, value: int) -> bool {
    &&& -span_of(bytes.len()) <= 2 * value < span_of(bytes.len())
    &&& value == weighed(bytes) || value == weighed(bytes) - span_of(bytes.len())
}

/// Bytes say a number in an order. A single byte of a wave file is counted from -128 on.
pub open spec fn says_in_order(bytes: Seq<u8>, order: ByteOrder, value: int) -> bool {
    match order {
        ByteOrder::Big => says(bytes, value),
        ByteOrder::Little => says(bytes.reverse(), value),
        ByteOrder::Wave => if bytes.len() == 1 {
            value == bytes[0] - 128
        } else {
            says(bytes.reverse(), value)
        },
    }
}

/// Bytes hold a sample in an order: it is the number that they say, without the lowest `spare`
/// bits.
pub open spec fn holds_sample(bytes: Seq<u8>, order: ByteOrder, spare: nat, sample: int) -> bool {
    exists|value: int| #[trigger]
        says_in_order(bytes, order, value) && sample * pow2(spare) <= value < (sample + 1) * pow2(
            spare,
        )
}

/// Bytes say the number of their big-endian value.
proof fn lemma_weighed(bytes: Seq<u8>)
    requires
        1 <= bytes.len() <= 4,
    ensures
        be_value(bytes) == weighed(bytes),
        le_value(bytes) == weighed(bytes.reverse()),
        byte_range(bytes.len()) == span_of(bytes.len()),
        pow2(8 * bytes.len()) == span_of(bytes.len()),
        2 * pow2((8 * bytes.len() - 1) as nat) == span_of(bytes.len()),
{
    lemma_byte_ranges();
    lemma2_to64();
    reveal_with_fuel(be_value, 5);
    reveal_with_fuel(le_value, 5);
}

proof fn lemma_says(bytes: Seq<u8>, order: ByteOrder)
    requires
        1 <= bytes.len() <= 4,
    ensures
        says_in_order(
            bytes,
            order,
            pattern_value(ordered_value(bytes, order), 8 * bytes.len()),
        ),
{
    lemma_weighed(bytes);
    lemma_be_value_bound(bytes);
    lemma_le_value_bound(bytes);
}

/// Stored samples are what their bytes hold: two's complement in the order, at the top of the
/// container, and in single bytes of wave files counted from -128 on. No byte is left out but
/// those of an incomplete sample.
pub proof fn law_stored_samples_are_what_bytes_hold(
    data: Seq<u8>,
    envelope: PcmEnvelope,
    order: ByteOrder,
)
    requires
        is_storable(envelope),
    ensures
        ({
            let width = (envelope.container_bits_per_sample / 8) as int;
            let spare = (envelope.container_bits_per_sample
                - envelope.valid_bits_per_sample) as nat;
            let samples = stored_samples(data, envelope, order);
            &&& samples.len() * width <= data.len() < (samples.len() + 1) * width
            &&& forall|i: int|
                #![trigger samples[i]]
                0 <= i < samples.len() ==> holds_sample(
                    data.subrange(i * width, i * width + width),
                    order,
                    spare,
                    samples[i] as int,
                )
        }),
{
    let width = (envelope.container_bits_per_sample / 8) as int;
    let spare = (envelope.container_bits_per_sample - envelope.valid_bits_per_sample) as nat;
    let samples = stored_samples(data, envelope, order);
    let count = data.len() as int / width;
    assert(count * width <= data.len() < (count + 1) * width && count >= 0) by (nonlinear_arith)
        requires
            width >= 1,
            count == data.len() as int / width,
    ;
    assert forall|i: int|
        #![trigger samples[i]]
        0 <= i < samples.len() implies holds_sample(
        data.subrange(i * width, i * width + width),
        order,
        spare,
        samples[i] as int,
    ) by {
        assert(0 <= i * width && i * width + width <= data.len()) by (nonlinear_arith)
            requires
                0 <= i < count,
                width >= 1,
                count * width <= data.len(),
        ;
        let bytes = data.subrange(i * width, i * width + width);
        lemma_says(bytes, order);
        lemma_weighed(bytes);
        let value = pattern_value(ordered_value(bytes, order), (8 * width) as nat);
        lemma_pow2_pos(spare);
        let factor = pow2(spare) as int;
        let sample = value / factor;
        lemma_be_value_bound(bytes);
        lemma_le_value_bound(bytes);
        assert(sample * factor <= value < (sample + 1) * factor && -0x8000_0000 <= sample
            < 0x8000_0000) by (nonlinear_arith)
            requires
                factor >= 1,
                sample == value / factor,
                -0x8000_0000 <= value < 0x8000_0000,
        ;
        assert(samples[i] == sample as i32);
        assert(says_in_order(bytes, order, value));
    }
}

/// A sample that fits in its valid width is stored in bytes that say it at the top of its
/// container.
pub proof fn law_bytes_of_samples_hold_them(
    sample: i32,
    envelope: PcmEnvelope,
    order: ByteOrder,
)
    requires
        is_storable(envelope),
        fits_signed(sample as int, envelope.valid_bits_per_sample as nat),
    ensures
        ({
            let spare = (envelope.container_bits_per_sample
                - envelope.valid_bits_per_sample) as nat;
            let stored = encoded_sample(sample, envelope, order);
            &&& stored matches Ok(bytes) && bytes.len() == envelope.container_bits_per_sample / 8
            &&& says_in_order(stored->Ok_0, order, sample * pow2(spare))
        }),
{
    let valid = envelope.valid_bits_per_sample;
    let container = envelope.container_bits_per_sample;
    let spare = (container - valid) as nat;
    let width = (container / 8) as nat;
    lemma2_to64();
    lemma_byte_ranges();
    lemma_pow2_unfold(container as nat);
    vstd::arithmetic::power2::lemma_pow2_adds((valid - 1) as nat, spare);
    lemma_pow2_pos(spare);
    let factor = pow2(spare) as int;
    let limit = pow2((valid - 1) as nat) as int;
    let half = pow2((container - 1) as nat) as int;
    let value = sample * factor;
    assert(-half <= value < half) by (nonlinear_arith)
        requires
            -limit <= sample < limit,
            factor >= 1,
            limit * factor == half,
            value == sample * factor,
    ;
    assert(raised(sample as int, spare) == value);
    let raw = pattern(value, container as nat);
    law_be_bytes_read_back(raw, width);
    law_le_bytes_read_back(raw, width);
    law_le_bytes_read_back(rebased(raw, width), width);
    let stored = ordered_bytes(raw, width, order);
    lemma_says(stored, order);
    assert(pattern_value(ordered_value(stored, order), container as nat) == value);
    assert(container as nat == 8 * stored.len());
}

/// A container is the smallest whole number of bytes that holds the valid bits.
pub proof fn law_containers_are_the_smallest(valid_bits: u16)
    requires
        1 <= valid_bits <= 32,
    ensures
        is_container(container_bits(valid_bits)),
        container_bits(valid_bits) >= valid_bits,
        container_bits(valid_bits) < valid_bits + 8,
{
}

/// The orders of described samples are those of their names, the widths and counts are as they
/// are described, and speaker positions that are not known are none.
pub proof fn law_raw_samples_are_stored_as_described(descriptor: RawPcmDescriptor)
    ensures
        order_of(RawPcmByteOrder::LittleEndian) == ByteOrder::Little,
        order_of(RawPcmByteOrder::BigEndian) == ByteOrder::Big,
        raw_envelope(descriptor) is Ok <==> {
            &&& descriptor.sample_rate > 0
            &&& 1 <= descriptor.channels <= 8
            &&& descriptor.container_bits_per_sample % 8 == 0
            &&& 4 <= descriptor.valid_bits_per_sample <= descriptor.container_bits_per_sample <= 32
            &&& descriptor.channel_mask matches Some(mask) ==> mask_is_supported(
                descriptor.channels as u16,
                mask,
            )
        },
        raw_envelope(descriptor) matches Ok(envelope) ==> {
            &&& is_storable(envelope)
            &&& envelope.channels == descriptor.channels
            &&& envelope.valid_bits_per_sample == descriptor.valid_bits_per_sample
            &&& envelope.container_bits_per_sample == descriptor.container_bits_per_sample
            &&& descriptor.channel_mask == Some(envelope.channel_mask)
                || descriptor.channel_mask is None && envelope.channel_mask == 0
        },
{
}

/// A speaker, as the bit of its place in the order of the positions: front left, front right,
/// front center, low frequency, back left, back right, front left of center, front right of
/// center, back center, side left and side right.
pub open spec fn speaker(place: nat) -> int {
    pow2(place) as int
}

/// The positions that channel counts have by convention: a center alone, left and right, a
/// center between them, four corners, five around, with the low frequencies as the sixth, seven
/// with a back center and sides, and eight with back and side pairs. There are as many as there
/// are channels, and each mask is supported.
pub proof fn law_ordinary_positions_are_those_of_convention(channels: u16)
    ensures
        ordinary_mask(channels) is Some <==> 1 <= channels <= 8,
        ordinary_mask(channels) matches Some(mask) ==> {
            let front = speaker(0) + speaker(1);
            let center = speaker(2);
            let low = speaker(3);
            let back = speaker(4) + speaker(5);
            let side = speaker(9) + speaker(10);
            &&& set_bits(mask as nat) == channels
            &&& mask_is_supported(channels, mask)
            &&& mask == if channels == 1 {
                center
            } else if channels == 2 {
                front
            } else if channels == 3 {
                front + center
            } else if channels == 4 {
                front + back
            } else if channels == 5 {
                front + center + back
            } else if channels == 6 {
                front + center + low + back
            } else if channels == 7 {
                front + center + low + speaker(8) + side
            } else {
                front + center + low + back + side
            }
        },
{
    lemma2_to64();
    reveal_with_fuel(set_bits, 12);
}

} // verus!
