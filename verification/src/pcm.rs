//! PCM streams: their shape, their channel masks and their samples as bytes.

use vstd::arithmetic::power2::{lemma_pow2_pos, lemma_pow2_strictly_increases, lemma_pow2_unfold, pow2};
use vstd::prelude::*;
use vstd::string::*;

use crate::bits::{fits_signed, power_of_two};
use crate::bytes::{be_bytes, be_value, byte_range, law_be_bytes_read_back, law_le_bytes_read_back, le_bytes, le_value, push_be_bytes, push_le_bytes, read_be, read_le, lemma_be_value_bound, lemma_le_value_bound};
use crate::error::{Error, ErrorView, Result};
use crate::prediction::shifted_down;
use crate::text::{append_decimal, decimal, labelled};

verus! {

/// The shape of a PCM stream.
#[derive(Debug, Clone, Copy, PartialEq, Eq, Structural)]
pub struct PcmSpec {
    /// Samples per second.
    pub sample_rate: u32,
    /// Number of interleaved channels.
    pub channels: u8,
    /// Valid bits carried by each sample.
    pub bits_per_sample: u8,
    /// Samples per channel.
    pub total_samples: u64,
    /// Bytes that each sample takes.
    pub bytes_per_sample: u16,
    /// Speaker positions of the channels.
    pub channel_mask: u32,
}

/// Interleaved samples and their description.
#[derive(Debug, Clone)]
pub struct PcmStream {
    pub spec: PcmSpec,
    pub samples: Vec<i32>,
}

/// How the samples of a PCM stream are stored.
#[derive(Debug, Clone, Copy, PartialEq, Eq, Structural)]
pub struct PcmEnvelope {
    pub channels: u16,
    pub valid_bits_per_sample: u16,
    pub container_bits_per_sample: u16,
    pub channel_mask: u32,
}

/// The families of PCM containers.
#[derive(Debug, Clone, Copy, PartialEq, Eq, Structural)]
pub enum PcmContainer {
    Auto,
    Wave,
    Rf64,
    Wave64,
    Aiff,
    Aifc,
    Caf,
}

/// The order of the bytes of a sample.
#[derive(Debug, Clone, Copy, PartialEq, Eq, Structural)]
pub enum ByteOrder {
    Big,
    Little,
    /// Little endian, with samples of one byte counted from the lowest one on, as
    /// RIFF/WAVE files store them.
    Wave,
}

/// A byte whose highest bit is the other way round.
pub open spec fn rebased(value: nat, count: nat) -> nat {
    if count == 1 {
        (value + 128) % 256
    } else {
        value
    }
}

pub open spec fn container_bits(valid_bits: u16) -> u16 {
    if valid_bits <= 8 {
        8
    } else if valid_bits <= 16 {
        16
    } else if valid_bits <= 24 {
        24
    } else {
        32
    }
}

/// The smallest whole-byte container for a sample width.
pub fn container_bits_from_valid_bits(valid_bits: u16) -> (bits: u16)
    ensures
        bits == container_bits(valid_bits),
{
    if valid_bits <= 8 {
        8
    } else if valid_bits <= 16 {
        16
    } else if valid_bits <= 24 {
        24
    } else {
        32
    }
}

/// The speaker positions that a channel count has by convention.
pub open spec fn ordinary_mask(channels: u16) -> Option<u32> {
    match channels {
        1 => Some(0x0004),
        2 => Some(0x0003),
        3 => Some(0x0007),
        4 => Some(0x0033),
        5 => Some(0x0037),
        6 => Some(0x003f),
        7 => Some(0x070f),
        8 => Some(0x063f),
        _ => None,
    }
}

/// The speaker positions that a channel count has by convention.
pub fn ordinary_channel_mask(channels: u16) -> (mask: Option<u32>)
    ensures
        mask == ordinary_mask(channels),
{
    match channels {
        1 => Some(0x0004),
        2 => Some(0x0003),
        3 => Some(0x0007),
        4 => Some(0x0033),
        5 => Some(0x0037),
        6 => Some(0x003f),
        7 => Some(0x070f),
        8 => Some(0x063f),
        _ => None,
    }
}

/// The number of set bits.
pub open spec fn set_bits(mask: nat) -> nat
    decreases mask,
{
    if mask == 0 {
        0
    } else {
        set_bits(mask / 2) + mask % 2
    }
}

/// A mask names known speaker positions, one for each channel.
pub open spec fn mask_is_supported(channels: u16, mask: u32) -> bool {
    mask <= 0x0003_ffff && set_bits(mask as nat) == channels
}

/// The number of set bits.
fn count_set_bits(mask: u32) -> (count: u32)
    ensures
        count == set_bits(mask as nat),
        count <= 32,
{
    let mut rest: u32 = mask;
    let mut count: u32 = 0;
    let mut seen: u32 = 0;
    proof {
        vstd::arithmetic::power2::lemma2_to64();
    }
    while rest > 0
        invariant
            count + set_bits(rest as nat) == set_bits(mask as nat),
            count <= seen <= 32,
            rest < pow2((32 - seen) as nat),
        decreases rest,
    {
        proof {
            if seen == 32 {
                vstd::arithmetic::power2::lemma2_to64();
            } else {
                lemma_pow2_unfold((32 - seen) as nat);
            }
        }
        count = count + rest % 2;
        rest = rest / 2;
        seen = seen + 1;
    }
    count
}

/// Whether a mask names known speaker positions, one for each channel.
pub fn is_supported_channel_mask(channels: u16, mask: u32) -> (supported: bool)
    ensures
        supported == mask_is_supported(channels, mask),
{
    mask <= 0x0003_ffff && count_set_bits(mask) == channels as u32
}

/// The two's-complement pattern of a number in `bits` bits.
pub open spec fn pattern(value: int, bits: nat) -> nat {
    (if value < 0 {
        value + pow2(bits)
    } else {
        value
    }) as nat
}

/// The number that a two's-complement pattern of `bits` bits stands for.
pub open spec fn pattern_value(raw: nat, bits: nat) -> int {
    if bits > 0 && raw >= pow2((bits - 1) as nat) {
        raw - pow2(bits)
    } else {
        raw as int
    }
}

/// The bytes of a number in an order.
pub open spec fn ordered_bytes(value: nat, count: nat, order: ByteOrder) -> Seq<u8> {
    match order {
        ByteOrder::Big => be_bytes(value, count),
        ByteOrder::Little => le_bytes(value, count),
        ByteOrder::Wave => le_bytes(rebased(value, count), count),
    }
}

/// The number that bytes stand for in an order.
pub open spec fn ordered_value(bytes: Seq<u8>, order: ByteOrder) -> nat {
    match order {
        ByteOrder::Big => be_value(bytes),
        ByteOrder::Little => le_value(bytes),
        ByteOrder::Wave => rebased(le_value(bytes), bytes.len()),
    }
}

/// A number reduced to the range of 32-bit two's complement.
pub open spec fn wrapped32(value: int) -> int {
    (value + 0x8000_0000) % 0x1_0000_0000 - 0x8000_0000
}

/// A sample moved up to the top of its container; what leaves 32 bits is lost.
pub open spec fn raised(sample: int, shift: nat) -> int {
    wrapped32(sample * pow2(shift))
}

/// The containers that samples are stored in.
pub open spec fn is_container(bits: u16) -> bool {
    bits == 8 || bits == 16 || bits == 24 || bits == 32
}

pub open spec fn out_of_range_text(bits: u16) -> Seq<char> {
    if bits == 8 {
        "8-bit sample is out of range"@
    } else if bits == 16 {
        "16-bit sample is out of range"@
    } else {
        "24-bit sample is out of range"@
    }
}

/// The bytes of a sample, or why it has none.
pub open spec fn encoded_sample(sample: i32, envelope: PcmEnvelope, order: ByteOrder)
    -> std::result::Result<Seq<u8>, ErrorView> {
    let valid = envelope.valid_bits_per_sample;
    let container = envelope.container_bits_per_sample;
    if container < valid {
        Err(
            ErrorView::InvalidPcmContainer(
                "valid bits cannot exceed container bits for encoding"@,
            ),
        )
    } else if container - valid >= 32 {
        Err(
            ErrorView::UnsupportedPcmContainer(
                "unsupported valid bits/container bits combination: "@ + decimal(valid as nat)
                    + "/"@ + decimal(container as nat),
            ),
        )
    } else {
        let value = raised(sample as int, (container - valid) as nat);
        if !is_container(container) {
            Err(
                ErrorView::UnsupportedPcmContainer(
                    "unsupported container bits/sample for encoder: "@ + decimal(container as nat),
                ),
            )
        } else if !fits_signed(value, container as nat) {
            Err(ErrorView::UnsupportedPcmContainer(out_of_range_text(container)))
        } else {
            Ok(
                ordered_bytes(
                    pattern(value, container as nat),
                    (container / 8) as nat,
                    order,
                ),
            )
        }
    }
}

/// The samples that bytes hold; bytes of an incomplete sample are left out.
pub open spec fn stored_samples(
    data: Seq<u8>,
    envelope: PcmEnvelope,
    order: ByteOrder,
) -> Seq<i32> {
    let width = (envelope.container_bits_per_sample / 8) as int;
    let shift = (envelope.container_bits_per_sample - envelope.valid_bits_per_sample) as nat;
    Seq::new(
        data.len() / (width as nat),
        |i: int|
            (pattern_value(
                ordered_value(data.subrange(i * width, i * width + width), order),
                envelope.container_bits_per_sample as nat,
            ) / (pow2(shift) as int)) as i32,
    )
}

/// The samples that bytes hold, or why there are none.
pub open spec fn decoded_samples(data: Seq<u8>, envelope: PcmEnvelope, order: ByteOrder)
    -> std::result::Result<Seq<i32>, ErrorView> {
    if envelope.container_bits_per_sample < envelope.valid_bits_per_sample {
        Err(
            ErrorView::InvalidPcmContainer(
                "valid bits cannot exceed container bits for decoding"@,
            ),
        )
    } else if !is_container(envelope.container_bits_per_sample) {
        Err(
            ErrorView::UnsupportedPcmContainer(
                "unsupported container bits/sample for decoder: "@ + decimal(
                    envelope.container_bits_per_sample as nat,
                ),
            ),
        )
    } else {
        Ok(stored_samples(data, envelope, order))
    }
}

/// Two to the power of a container width is the range of its bytes.
proof fn lemma_container_range(container: u16)
    requires
        is_container(container),
    ensures
        byte_range((container / 8) as nat) == pow2(container as nat),
        pow2((container - 1) as nat) * 2 == pow2(container as nat),
        1 <= pow2(container as nat) <= 0x1_0000_0000,
{
    crate::bytes::lemma_byte_ranges();
    vstd::arithmetic::power2::lemma2_to64();
    lemma_pow2_unfold(container as nat);
}

/// A number of a width reduced to 32 bits.
fn wrap32(value: i64) -> (wrapped: i64)
    requires
        -0x4000_0000_0000_0000 <= value < 0x4000_0000_0000_0000,
    ensures
        wrapped == wrapped32(value as int),
        -0x8000_0000 <= wrapped < 0x8000_0000,
{
    let biased: u64 = (value + 0x4000_0000_0000_0000) as u64 + 0x8000_0000;
    assert(biased as int % 0x1_0000_0000 == (value + 0x8000_0000) % 0x1_0000_0000);
    (biased % 0x1_0000_0000) as i64 - 0x8000_0000
}

/// Appends the bytes of a sample in an order.
pub fn append_ordered_sample(
    buffer: &mut Vec<u8>,
    sample: i32,
    envelope: PcmEnvelope,
    order: ByteOrder,
) -> (result: Result<()>)
    ensures
        match encoded_sample(sample, envelope, order) {
            Ok(bytes) => result is Ok && final(buffer)@ == old(buffer)@ + bytes,
            Err(expected) => result matches Err(error) && error@ == expected && final(buffer)@
                == old(buffer)@,
        },
{
    let valid: u16 = envelope.valid_bits_per_sample;
    let container: u16 = envelope.container_bits_per_sample;
    if container < valid {
        return Err(
            Error::InvalidPcmContainer("valid bits cannot exceed container bits for encoding"),
        );
    }
    let shift: u16 = container - valid;
    if shift >= 32 {
        let mut text = labelled(
            "unsupported valid bits/container bits combination: ",
            valid as u64,
        );
        text.append("/");
        append_decimal(&mut text, container as u64);
        return Err(Error::UnsupportedPcmContainer(text));
    }
    let factor: i64 = power_of_two(shift as u8) as i64;
    let wide: i64 = sample as i64;
    proof {
        vstd::arithmetic::power2::lemma2_to64();
        if shift < 31 {
            lemma_pow2_strictly_increases(shift as nat, 31);
        }
        assert(-0x4000_0000_0000_0000 <= wide * factor < 0x4000_0000_0000_0000) by (nonlinear_arith)
            requires
                -0x8000_0000 <= wide < 0x8000_0000,
                1 <= factor <= 0x8000_0000,
        ;
    }
    let value: i64 = wrap32(wide * factor);
    if container != 8 && container != 16 && container != 24 && container != 32 {
        return Err(
            Error::UnsupportedPcmContainer(
                labelled("unsupported container bits/sample for encoder: ", container as u64),
            ),
        );
    }
    proof {
        lemma_container_range(container);
        vstd::arithmetic::power2::lemma2_to64();
    }
    let range: i64 = power_of_two(container as u8) as i64;
    let half: i64 = range / 2;
    if value < -half || value >= half {
        let text = if container == 8 {
            "8-bit sample is out of range"
        } else if container == 16 {
            "16-bit sample is out of range"
        } else {
            "24-bit sample is out of range"
        };
        return Err(Error::UnsupportedPcmContainer(text.to_owned()));
    }
    let raw: u64 = if value < 0 {
        (value + range) as u64
    } else {
        value as u64
    };
    match order {
        ByteOrder::Big => push_be_bytes(buffer, raw, (container / 8) as u8),
        ByteOrder::Little => push_le_bytes(buffer, raw, (container / 8) as u8),
        ByteOrder::Wave => {
            let stored: u64 = if container == 8 {
                (raw + 128) % 256
            } else {
                raw
            };
            push_le_bytes(buffer, stored, (container / 8) as u8)
        },
    }
    Ok(())
}

/// The bytes of samples, one after the other, or why the first sample without
/// bytes has none.
pub open spec fn encoded_samples(samples: Seq<i32>, envelope: PcmEnvelope, order: ByteOrder)
    -> std::result::Result<Seq<u8>, ErrorView>
    decreases samples.len(),
{
    if samples.len() == 0 {
        Ok(Seq::empty())
    } else {
        match encoded_samples(samples.drop_last(), envelope, order) {
            Err(error) => Err(error),
            Ok(earlier) => match encoded_sample(samples.last(), envelope, order) {
                Err(error) => Err(error),
                Ok(bytes) => Ok(earlier + bytes),
            },
        }
    }
}

pub proof fn lemma_encoded_samples_len(samples: Seq<i32>, envelope: PcmEnvelope, order: ByteOrder)
    ensures
        encoded_samples(samples, envelope, order) matches Ok(bytes) ==> bytes.len()
            == samples.len() * (envelope.container_bits_per_sample / 8) && (samples.len() > 0
            ==> is_container(envelope.container_bits_per_sample)),
    decreases samples.len(),
{
    let width = (envelope.container_bits_per_sample / 8) as int;
    if samples.len() == 0 {
        assert(0 * width == 0);
    } else {
        lemma_encoded_samples_len(samples.drop_last(), envelope, order);
        assert(samples.len() * width == (samples.len() - 1) * width + width) by (nonlinear_arith);
        if encoded_sample(samples.last(), envelope, order) is Ok {
            lemma_container_range(envelope.container_bits_per_sample);
            let shift = (envelope.container_bits_per_sample
                - envelope.valid_bits_per_sample) as nat;
            let raw = pattern(
                raised(samples.last() as int, shift),
                envelope.container_bits_per_sample as nat,
            );
            law_be_bytes_read_back(raw, width as nat);
            law_le_bytes_read_back(raw, width as nat);
            law_le_bytes_read_back(rebased(raw, width as nat), width as nat);
        }
    }
}

/// Once a sample has no bytes, no longer run has any.
pub proof fn lemma_encoded_samples_fail(
    samples: Seq<i32>,
    envelope: PcmEnvelope,
    order: ByteOrder,
    count: int,
)
    requires
        0 <= count <= samples.len(),
        encoded_samples(samples.take(count), envelope, order) is Err,
    ensures
        encoded_samples(samples, envelope, order) == encoded_samples(
            samples.take(count),
            envelope,
            order,
        ),
    decreases samples.len(),
{
    if count < samples.len() {
        assert(samples.drop_last().take(count) == samples.take(count));
        lemma_encoded_samples_fail(samples.drop_last(), envelope, order, count);
    } else {
        assert(samples.take(count) == samples);
    }
}

/// The bytes of samples up to the first that cannot be stored.
pub open spec fn stored_front(samples: Seq<i32>, envelope: PcmEnvelope, order: ByteOrder) -> Seq<u8>
    decreases samples.len(),
{
    if samples.len() == 0 {
        Seq::empty()
    } else {
        match encoded_samples(samples.drop_last(), envelope, order) {
            Err(_) => stored_front(samples.drop_last(), envelope, order),
            Ok(bytes) => match encoded_sample(samples.last(), envelope, order) {
                Err(_) => bytes,
                Ok(more) => bytes + more,
            },
        }
    }
}

/// The first sample that cannot be stored ends the front.
proof fn lemma_stored_front(samples: Seq<i32>, envelope: PcmEnvelope, order: ByteOrder, count: int)
    requires
        0 <= count < samples.len(),
        encoded_samples(samples.take(count), envelope, order) is Ok,
        encoded_samples(samples.take(count + 1), envelope, order) is Err,
    ensures
        Ok::<Seq<u8>, ErrorView>(stored_front(samples, envelope, order)) == encoded_samples(
            samples.take(count),
            envelope,
            order,
        ),
    decreases samples.len(),
{
    if count == samples.len() - 1 {
        assert(samples.take(count) == samples.drop_last());
        assert(samples.take(count + 1) == samples);
    } else {
        let earlier = samples.drop_last();
        assert(earlier.take(count) == samples.take(count));
        assert(earlier.take(count + 1) == samples.take(count + 1));
        lemma_stored_front(earlier, envelope, order, count);
        lemma_encoded_samples_fail(earlier, envelope, order, count + 1);
    }
}

/// The front that is stored is that of some samples.
pub proof fn lemma_front_is_stored(samples: Seq<i32>, envelope: PcmEnvelope, order: ByteOrder)
    -> (count: int)
    ensures
        0 <= count <= samples.len(),
        encoded_samples(samples.take(count), envelope, order) == Ok::<Seq<u8>, ErrorView>(
            stored_front(samples, envelope, order),
        ),
    decreases samples.len(),
{
    if samples.len() == 0 {
        assert(samples.take(0) == samples);
        0
    } else {
        let earlier = samples.drop_last();
        let last = samples.len() as int;
        if encoded_samples(earlier, envelope, order) is Ok {
            assert(samples.take(last - 1) == earlier);
            assert(samples.take(last) == samples);
            if encoded_sample(samples.last(), envelope, order) is Ok {
                last
            } else {
                last - 1
            }
        } else {
            let count = lemma_front_is_stored(earlier, envelope, order);
            assert(earlier.take(count) == samples.take(count));
            count
        }
    }
}

/// Appends the bytes of samples in an order. After a failure the buffer holds what
/// came before the failing sample.
pub fn append_ordered_samples(
    buffer: &mut Vec<u8>,
    samples: &[i32],
    envelope: PcmEnvelope,
    order: ByteOrder,
) -> (result: Result<()>)
    ensures
        match encoded_samples(samples@, envelope, order) {
            Ok(bytes) => result is Ok && final(buffer)@ == old(buffer)@ + bytes,
            Err(expected) => {
                &&& result matches Err(error) && error@ == expected
                &&& final(buffer)@ == old(buffer)@ + stored_front(samples@, envelope, order)
            },
        },
{
    let mut index: usize = 0;
    assert(buffer@ + Seq::<u8>::empty() == buffer@);
    while index < samples.len()
        invariant
            index <= samples@.len(),
            encoded_samples(samples@.take(index as int), envelope, order) matches Ok(bytes)
                && buffer@ == old(buffer)@ + bytes,
        decreases samples.len() - index,
    {
        let ghost next = samples@.take(index + 1);
        assert(next.drop_last() == samples@.take(index as int));
        assert(next.last() == samples@[index as int]);
        let ghost before = buffer@;
        match append_ordered_sample(buffer, samples[index], envelope, order) {
            Ok(()) => {},
            Err(error) => {
                proof {
                    lemma_encoded_samples_fail(samples@, envelope, order, index + 1);
                    lemma_stored_front(samples@, envelope, order, index as int);
                }
                return Err(error);
            },
        }
        proof {
            let earlier = encoded_samples(next.drop_last(), envelope, order)->Ok_0;
            let bytes = encoded_sample(next.last(), envelope, order)->Ok_0;
            assert(buffer@ == old(buffer)@ + (earlier + bytes));
        }
        index = index + 1;
    }
    assert(samples@.take(index as int) == samples@);
    Ok(())
}

/// Reads the samples that bytes hold in an order.
pub fn decode_samples(data: &[u8], envelope: PcmEnvelope, order: ByteOrder) -> (samples: Result<
    Vec<i32>,
>)
    requires
        envelope.valid_bits_per_sample >= 1,
    ensures
        match decoded_samples(data@, envelope, order) {
            Ok(expected) => samples matches Ok(found) && found@ == expected,
            Err(expected) => samples matches Err(error) && error@ == expected,
        },
{
    let valid: u16 = envelope.valid_bits_per_sample;
    let container: u16 = envelope.container_bits_per_sample;
    if container < valid {
        return Err(
            Error::InvalidPcmContainer("valid bits cannot exceed container bits for decoding"),
        );
    }
    if container != 8 && container != 16 && container != 24 && container != 32 {
        return Err(
            Error::UnsupportedPcmContainer(
                labelled("unsupported container bits/sample for decoder: ", container as u64),
            ),
        );
    }
    let shift: u8 = (container - valid) as u8;
    let width: usize = (container / 8) as usize;
    let count: usize = data.len() / width;
    proof {
        lemma_container_range(container);
    }
    let range: i64 = power_of_two(container as u8) as i64;
    let half: i64 = range / 2;
    let mut samples: Vec<i32> = Vec::new();
    let mut index: usize = 0;
    while index < count
        invariant
            index <= count,
            data@.len() <= usize::MAX,
            count == data@.len() / (width as nat),
            is_container(container),
            container == envelope.container_bits_per_sample,
            valid == envelope.valid_bits_per_sample,
            width == container / 8,
            shift == container - valid,
            1 <= valid <= container,
            range == pow2(container as nat),
            half == pow2((container - 1) as nat),
            half * 2 == range,
            byte_range(width as nat) == pow2(container as nat),
            1 <= range <= 0x1_0000_0000,
            samples@.len() == index,
            forall|i: int|
                0 <= i < index ==> #[trigger] samples@[i] == stored_samples(
                    data@,
                    envelope,
                    order,
                )[i],
        decreases count - index,
    {
        proof {
            let length = data@.len() as int;
            let span = width as int;
            assert(index * span + span <= length && index * span >= 0) by (nonlinear_arith)
                requires
                    span > 0,
                    0 <= index,
                    index + 1 <= length / span,
            ;
        }
        let start: usize = index * width;
        let raw: u64 = match order {
            ByteOrder::Big => read_be(data, start, width),
            ByteOrder::Little => read_le(data, start, width),
            ByteOrder::Wave => {
                let stored: u64 = read_le(data, start, width);
                if width == 1 {
                    (stored + 128) % 256
                } else {
                    stored
                }
            },
        };
        let value: i64 = if raw as i64 >= half {
            raw as i64 - range
        } else {
            raw as i64
        };
        let sample: i64 = shifted_down(value, shift);
        proof {
            lemma_pow2_pos(shift as nat);
            let divisor = pow2(shift as nat) as int;
            assert(-0x8000_0000 <= value as int / divisor < 0x8000_0000) by (nonlinear_arith)
                requires
                    divisor >= 1,
                    -0x8000_0000 <= value < 0x8000_0000,
            ;
        }
        samples.push(sample as i32);
        index = index + 1;
    }
    assert(samples@ == stored_samples(data@, envelope, order));
    Ok(samples)
}

/// A sample of its valid width is read back from its bytes.
pub proof fn law_sample_bytes_read_back(sample: i32, envelope: PcmEnvelope, order: ByteOrder)
    requires
        is_container(envelope.container_bits_per_sample),
        1 <= envelope.valid_bits_per_sample <= envelope.container_bits_per_sample,
        fits_signed(sample as int, envelope.valid_bits_per_sample as nat),
    ensures
        ({
            let bytes = encoded_sample(sample, envelope, order);
            &&& bytes matches Ok(stored)
            &&& stored.len() == envelope.container_bits_per_sample / 8
            &&& stored_samples(stored, envelope, order) == seq![sample]
        }),
{
    let valid = envelope.valid_bits_per_sample;
    let container = envelope.container_bits_per_sample;
    let shift = (container - valid) as nat;
    let width = (container / 8) as nat;
    lemma_container_range(container);
    lemma_pow2_unfold(valid as nat);
    vstd::arithmetic::power2::lemma_pow2_adds((valid - 1) as nat, shift);
    lemma_pow2_pos(shift);
    let factor = pow2(shift) as int;
    let limit = pow2((valid - 1) as nat) as int;
    let half = pow2((container - 1) as nat) as int;
    let value = sample * factor;
    assert(-half <= value < half) by (nonlinear_arith)
        requires
            -limit <= sample < limit,
            factor >= 1,
            limit * factor == half,
            value == sample * factor,
    ;
    assert(raised(sample as int, shift) == value);
    let raw = pattern(value, container as nat);
    law_be_bytes_read_back(raw, width);
    law_le_bytes_read_back(raw, width);
    law_le_bytes_read_back(rebased(raw, width), width);
    assert(pattern_value(raw, container as nat) == value);
    assert(value / factor == sample) by (nonlinear_arith)
        requires
            factor >= 1,
            value == sample * factor,
    ;
    let stored = ordered_bytes(raw, width, order);
    assert(stored.subrange(0, width as int) == stored);
    assert(stored.len() / width == 1) by (nonlinear_arith)
        requires
            stored.len() == width,
            width >= 1,
    ;
    if width == 1 {
        crate::bytes::lemma_byte_ranges();
        assert(raw < 256);
    }
    assert(rebased(rebased(raw, width), width) == raw);
    assert(ordered_value(stored, order) == raw);
    assert(stored_samples(stored, envelope, order) == seq![sample]);
}

/// Samples that were stored fit in their valid width.
pub proof fn law_stored_samples_fit(data: Seq<u8>, envelope: PcmEnvelope, order: ByteOrder)
    requires
        is_container(envelope.container_bits_per_sample),
        1 <= envelope.valid_bits_per_sample <= envelope.container_bits_per_sample,
    ensures
        forall|i: int|
            0 <= i < stored_samples(data, envelope, order).len() ==> fits_signed(
                #[trigger] stored_samples(data, envelope, order)[i] as int,
                envelope.valid_bits_per_sample as nat,
            ),
{
    let valid = envelope.valid_bits_per_sample;
    let container = envelope.container_bits_per_sample;
    let shift = (container - valid) as nat;
    let width = (container / 8) as int;
    lemma_container_range(container);
    vstd::arithmetic::power2::lemma2_to64();
    vstd::arithmetic::power2::lemma_pow2_adds((valid - 1) as nat, shift);
    lemma_pow2_pos(shift);
    lemma_pow2_pos((valid - 1) as nat);
    let factor = pow2(shift) as int;
    let limit = pow2((valid - 1) as nat) as int;
    let half = pow2((container - 1) as nat) as int;
    let samples = stored_samples(data, envelope, order);
    assert forall|i: int| 0 <= i < samples.len() implies fits_signed(
        #[trigger] samples[i] as int,
        valid as nat,
    ) by {
        assert(i * width + width <= data.len()) by (nonlinear_arith)
            requires
                0 <= i,
                width >= 1,
                i + 1 <= data.len() as int / width,
        ;
        assert(i * width >= 0) by (nonlinear_arith)
            requires
                0 <= i,
                width >= 1,
        ;
        let bytes = data.subrange(i * width, i * width + width);
        lemma_be_value_bound(bytes);
        lemma_le_value_bound(bytes);
        let value = pattern_value(ordered_value(bytes, order), container as nat);
        assert(-half <= value < half);
        let sample = value / factor;
        vstd::arithmetic::div_mod::lemma_fundamental_div_mod(value, factor);
        vstd::arithmetic::div_mod::lemma_mod_bound(value, factor);
        assert(-limit <= sample < limit) by (nonlinear_arith)
            requires
                value == factor * sample + value % factor,
                0 <= value % factor < factor,
                -half <= value < half,
                limit * factor == half,
                factor >= 1,
        ;
        assert(limit <= half) by (nonlinear_arith)
            requires
                limit * factor == half,
                factor >= 1,
                limit >= 0,
        ;
        assert(samples[i] == sample as i32);
    }
}

/// The bytes of samples, one after the other.
pub open spec fn joined_sample_bytes(samples: Seq<i32>, envelope: PcmEnvelope, order: ByteOrder)
    -> Seq<u8>
    decreases samples.len(),
{
    if samples.len() == 0 {
        Seq::empty()
    } else {
        joined_sample_bytes(samples.drop_last(), envelope, order) + encoded_sample(
            samples.last(),
            envelope,
            order,
        )->Ok_0
    }
}

/// Samples of their valid width are read back from their bytes.
pub proof fn law_stored_samples_read_back(
    samples: Seq<i32>,
    envelope: PcmEnvelope,
    order: ByteOrder,
)
    requires
        is_container(envelope.container_bits_per_sample),
        1 <= envelope.valid_bits_per_sample <= envelope.container_bits_per_sample,
        forall|i: int|
            0 <= i < samples.len() ==> fits_signed(
                #[trigger] samples[i] as int,
                envelope.valid_bits_per_sample as nat,
            ),
    ensures
        joined_sample_bytes(samples, envelope, order).len() == samples.len()
            * (envelope.container_bits_per_sample / 8),
        stored_samples(joined_sample_bytes(samples, envelope, order), envelope, order) == samples,
    decreases samples.len(),
{
    let width = (envelope.container_bits_per_sample / 8) as int;
    let data = joined_sample_bytes(samples, envelope, order);
    if samples.len() == 0 {
        assert(0 * width == 0);
        assert(stored_samples(data, envelope, order) == samples);
    } else {
        let earlier = samples.drop_last();
        assert forall|i: int| 0 <= i < earlier.len() implies fits_signed(
            #[trigger] earlier[i] as int,
            envelope.valid_bits_per_sample as nat,
        ) by {
            assert(earlier[i] == samples[i]);
        }
        law_stored_samples_read_back(earlier, envelope, order);
        assert(fits_signed(
            samples[samples.len() - 1] as int,
            envelope.valid_bits_per_sample as nat,
        ));
        law_sample_bytes_read_back(samples.last(), envelope, order);
        let head = joined_sample_bytes(earlier, envelope, order);
        let tail = encoded_sample(samples.last(), envelope, order)->Ok_0;
        let count = samples.len() as int;
        assert(head.len() == (count - 1) * width);
        assert(count * width == (count - 1) * width + width) by (nonlinear_arith);
        assert(data.len() == count * width);
        assert((count * width) / width == count && ((count - 1) * width) / width == count - 1)
            by (nonlinear_arith)
            requires
                width >= 1,
        ;
        let found = stored_samples(data, envelope, order);
        assert forall|i: int| 0 <= i < count implies found[i] == samples[i] by {
            assert(0 <= i * width && i * width + width <= count * width) by (nonlinear_arith)
                requires
                    0 <= i < count,
                    width >= 1,
            ;
            if i < count - 1 {
                assert(i * width + width <= (count - 1) * width) by (nonlinear_arith)
                    requires
                        0 <= i < count - 1,
                        width >= 1,
                ;
                assert(data.subrange(i * width, i * width + width) == head.subrange(
                    i * width,
                    i * width + width,
                ));
                assert(stored_samples(head, envelope, order)[i] == earlier[i]);
            } else {
                assert(data.subrange(i * width, i * width + width) == tail);
                assert(tail.subrange(0, width) == tail);
                assert(stored_samples(tail, envelope, order)[0] == samples.last());
            }
        }
        assert(found == samples);
    }
}

} // verus!
