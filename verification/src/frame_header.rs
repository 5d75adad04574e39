//! Frame headers.

use vstd::prelude::*;

use crate::bit_writer::{written_bits, FrameBitWriter};
use crate::bits::{byte_bits, lemma_byte_bits_concat, lemma_byte_bits_len, lemma_unsigned_bits_len, unsigned_bits};
use crate::bytes::{be_bytes, be_value, law_be_bytes_read_back, lemma_packed_bits, packed, push_be16};
use crate::crc::{crc8, crc8_of};
use crate::error::{Error, ErrorView, Result};
use crate::rice::wrote;
use crate::text::{decimal, numbered};

verus! {

/// The sync code at the start of each frame.
pub const FLAC_SYNC_CODE: u16 = 0x3ffe;

/// How the channels of a frame are stored.
#[derive(Debug, Clone, Copy, PartialEq, Eq, Structural)]
pub enum ChannelAssignment {
    IndependentMono,
    IndependentStereo,
    IndependentThree,
    IndependentFour,
    IndependentFive,
    IndependentSix,
    IndependentSeven,
    IndependentEight,
    LeftSide,
    SideRight,
    MidSide,
}

/// The most channels that a frame stores.
pub const MAX_CHANNELS: u8 = 8;

/// The number of channels of an assignment.
pub open spec fn channel_count(assignment: ChannelAssignment) -> nat {
    match assignment {
        ChannelAssignment::IndependentMono => 1,
        ChannelAssignment::IndependentThree => 3,
        ChannelAssignment::IndependentFour => 4,
        ChannelAssignment::IndependentFive => 5,
        ChannelAssignment::IndependentSix => 6,
        ChannelAssignment::IndependentSeven => 7,
        ChannelAssignment::IndependentEight => 8,
        _ => 2,
    }
}

/// The number of channels of an assignment.
pub fn count_channels(assignment: ChannelAssignment) -> (count: u8)
    ensures
        count == channel_count(assignment),
        1 <= count <= MAX_CHANNELS,
{
    match assignment {
        ChannelAssignment::IndependentMono => 1,
        ChannelAssignment::IndependentThree => 3,
        ChannelAssignment::IndependentFour => 4,
        ChannelAssignment::IndependentFive => 5,
        ChannelAssignment::IndependentSix => 6,
        ChannelAssignment::IndependentSeven => 7,
        ChannelAssignment::IndependentEight => 8,
        _ => 2,
    }
}

/// The assignment that stores each of one to eight channels as it is.
pub open spec fn independent_assignment(channels: u8) -> ChannelAssignment {
    match channels {
        1 => ChannelAssignment::IndependentMono,
        2 => ChannelAssignment::IndependentStereo,
        3 => ChannelAssignment::IndependentThree,
        4 => ChannelAssignment::IndependentFour,
        5 => ChannelAssignment::IndependentFive,
        6 => ChannelAssignment::IndependentSix,
        7 => ChannelAssignment::IndependentSeven,
        _ => ChannelAssignment::IndependentEight,
    }
}

/// The assignment that stores each of one to eight channels as it is.
pub fn assign_independent(channels: u8) -> (assignment: ChannelAssignment)
    ensures
        assignment == independent_assignment(channels),
{
    match channels {
        1 => ChannelAssignment::IndependentMono,
        2 => ChannelAssignment::IndependentStereo,
        3 => ChannelAssignment::IndependentThree,
        4 => ChannelAssignment::IndependentFour,
        5 => ChannelAssignment::IndependentFive,
        6 => ChannelAssignment::IndependentSix,
        7 => ChannelAssignment::IndependentSeven,
        _ => ChannelAssignment::IndependentEight,
    }
}

pub open spec fn assignment_code(assignment: ChannelAssignment) -> u8 {
    match assignment {
        ChannelAssignment::IndependentMono => 0,
        ChannelAssignment::IndependentStereo => 1,
        ChannelAssignment::IndependentThree => 2,
        ChannelAssignment::IndependentFour => 3,
        ChannelAssignment::IndependentFive => 4,
        ChannelAssignment::IndependentSix => 5,
        ChannelAssignment::IndependentSeven => 6,
        ChannelAssignment::IndependentEight => 7,
        ChannelAssignment::LeftSide => 8,
        ChannelAssignment::SideRight => 9,
        ChannelAssignment::MidSide => 10,
    }
}

/// The four-bit code of a channel assignment.
pub fn channel_assignment_bits(assignment: ChannelAssignment) -> (code: u8)
    ensures
        code == assignment_code(assignment),
{
    match assignment {
        ChannelAssignment::IndependentMono => 0b0000,
        ChannelAssignment::IndependentStereo => 0b0001,
        ChannelAssignment::IndependentThree => 0b0010,
        ChannelAssignment::IndependentFour => 0b0011,
        ChannelAssignment::IndependentFive => 0b0100,
        ChannelAssignment::IndependentSix => 0b0101,
        ChannelAssignment::IndependentSeven => 0b0110,
        ChannelAssignment::IndependentEight => 0b0111,
        ChannelAssignment::LeftSide => 0b1000,
        ChannelAssignment::SideRight => 0b1001,
        ChannelAssignment::MidSide => 0b1010,
    }
}

/// The sample widths of the first channel and of the others: a side channel is one bit
/// wider.
pub open spec fn channel_widths(assignment: ChannelAssignment, bits_per_sample: nat) -> (nat, nat) {
    match assignment {
        ChannelAssignment::LeftSide => (bits_per_sample, bits_per_sample + 1),
        ChannelAssignment::SideRight => (bits_per_sample + 1, bits_per_sample),
        ChannelAssignment::MidSide => (bits_per_sample, bits_per_sample + 1),
        _ => (bits_per_sample, bits_per_sample),
    }
}

/// The sample width of a channel.
pub open spec fn width_at(widths: (nat, nat), channel: int) -> nat {
    if channel == 0 {
        widths.0
    } else {
        widths.1
    }
}

/// The sample widths of the first channel and of the others.
pub fn channel_bits_per_sample(assignment: ChannelAssignment, bits_per_sample: u8) -> (widths: (
    u8,
    u8,
))
    requires
        bits_per_sample < 255,
    ensures
        (widths.0 as nat, widths.1 as nat) == channel_widths(assignment, bits_per_sample as nat),
{
    match assignment {
        ChannelAssignment::LeftSide => (bits_per_sample, bits_per_sample + 1),
        ChannelAssignment::SideRight => (bits_per_sample + 1, bits_per_sample),
        ChannelAssignment::MidSide => (bits_per_sample, bits_per_sample + 1),
        _ => (bits_per_sample, bits_per_sample),
    }
}

/// The three-bit code of a sample width, for the widths that have one.
pub open spec fn bit_depth_code(bits_per_sample: u8) -> Option<u8> {
    match bits_per_sample {
        8 => Some(1),
        12 => Some(2),
        16 => Some(4),
        20 => Some(5),
        24 => Some(6),
        32 => Some(7),
        _ => None,
    }
}

pub open spec fn bit_depth_error(bits_per_sample: u8) -> ErrorView {
    ErrorView::UnsupportedFlac(
        "bit depth "@ + decimal(bits_per_sample as nat)
            + " is not encodable in a frame header"@,
    )
}

/// The three-bit code of a sample width.
pub fn bit_depth_bits(bits_per_sample: u8) -> (code: Result<u8>)
    ensures
        match bit_depth_code(bits_per_sample) {
            Some(expected) => code == Ok::<u8, Error>(expected),
            None => code matches Err(error) && error@ == bit_depth_error(bits_per_sample),
        },
{
    match bits_per_sample {
        8 => Ok(0b001),
        12 => Ok(0b010),
        16 => Ok(0b100),
        20 => Ok(0b101),
        24 => Ok(0b110),
        32 => Ok(0b111),
        _ => Err(
            Error::UnsupportedFlac(
                numbered(
                    "bit depth ",
                    bits_per_sample as u64,
                    " is not encodable in a frame header",
                ),
            ),
        ),
    }
}

/// The four-bit code of a block size and the bytes that follow the header fields.
pub open spec fn block_size_field(block_size: u16) -> (u8, Seq<u8>) {
    match block_size {
        192 => (1, Seq::empty()),
        576 => (2, Seq::empty()),
        1152 => (3, Seq::empty()),
        2304 => (4, Seq::empty()),
        4608 => (5, Seq::empty()),
        256 => (8, Seq::empty()),
        512 => (9, Seq::empty()),
        1024 => (10, Seq::empty()),
        2048 => (11, Seq::empty()),
        4096 => (12, Seq::empty()),
        8192 => (13, Seq::empty()),
        16384 => (14, Seq::empty()),
        32768 => (15, Seq::empty()),
        _ => if block_size <= 256 {
            (6, be_bytes((block_size - 1) as nat, 1))
        } else {
            (7, be_bytes((block_size - 1) as nat, 2))
        },
    }
}

/// The block size that a code and its extra bytes stand for.
pub open spec fn block_size_of(code: u8, extra: Seq<u8>) -> nat {
    match code {
        1 => 192,
        2 => 576,
        3 => 1152,
        4 => 2304,
        5 => 4608,
        6 => be_value(extra) + 1,
        7 => be_value(extra) + 1,
        8 => 256,
        9 => 512,
        10 => 1024,
        11 => 2048,
        12 => 4096,
        13 => 8192,
        14 => 16384,
        _ => 32768,
    }
}

/// A block size is read back from its code.
pub proof fn law_block_size_reads_back(block_size: u16)
    requires
        block_size >= 1,
    ensures
        block_size_of(block_size_field(block_size).0, block_size_field(block_size).1) == block_size,
{
    reveal_with_fuel(crate::bytes::byte_range, 3);
    if block_size <= 256 {
        law_be_bytes_read_back((block_size - 1) as nat, 1);
    }
    law_be_bytes_read_back((block_size - 1) as nat, 2);
}

/// The code of a block size.
pub fn block_size_code(block_size: u16) -> (field: (u8, Vec<u8>))
    requires
        block_size >= 1,
    ensures
        (field.0, field.1@) == block_size_field(block_size),
        field.0 < 16,
{
    let mut extra: Vec<u8> = Vec::new();
    let code: u8 = match block_size {
        192 => 0b0001,
        576 => 0b0010,
        1152 => 0b0011,
        2304 => 0b0100,
        4608 => 0b0101,
        256 => 0b1000,
        512 => 0b1001,
        1024 => 0b1010,
        2048 => 0b1011,
        4096 => 0b1100,
        8192 => 0b1101,
        16384 => 0b1110,
        32768 => 0b1111,
        _ => {
            if block_size <= 256 {
                extra.push((block_size - 1) as u8);
                proof {
                    reveal_with_fuel(be_bytes, 2);
                    assert(extra@ == be_bytes((block_size - 1) as nat, 1));
                }
                0b0110
            } else {
                push_be16(&mut extra, block_size - 1);
                assert(extra@ == be_bytes((block_size - 1) as nat, 2));
                0b0111
            }
        },
    };
    (code, extra)
}

/// The four-bit code of a sample rate and the bytes that follow the header fields,
/// for the rates that have one.
pub open spec fn sample_rate_field(sample_rate: u32) -> Option<(u8, Seq<u8>)> {
    match sample_rate {
        0 => None,
        88_200 => Some((1, Seq::empty())),
        176_400 => Some((2, Seq::empty())),
        192_000 => Some((3, Seq::empty())),
        8_000 => Some((4, Seq::empty())),
        16_000 => Some((5, Seq::empty())),
        22_050 => Some((6, Seq::empty())),
        24_000 => Some((7, Seq::empty())),
        32_000 => Some((8, Seq::empty())),
        44_100 => Some((9, Seq::empty())),
        48_000 => Some((10, Seq::empty())),
        96_000 => Some((11, Seq::empty())),
        _ => if sample_rate % 1000 == 0 && sample_rate / 1000 <= 255 {
            Some((12, be_bytes((sample_rate / 1000) as nat, 1)))
        } else if sample_rate <= 65535 {
            Some((13, be_bytes(sample_rate as nat, 2)))
        } else if sample_rate % 10 == 0 && sample_rate / 10 <= 65535 {
            Some((14, be_bytes((sample_rate / 10) as nat, 2)))
        } else {
            None
        },
    }
}

/// The sample rate that a code and its extra bytes stand for.
pub open spec fn sample_rate_of(code: u8, extra: Seq<u8>) -> nat {
    match code {
        1 => 88_200,
        2 => 176_400,
        3 => 192_000,
        4 => 8_000,
        5 => 16_000,
        6 => 22_050,
        7 => 24_000,
        8 => 32_000,
        9 => 44_100,
        10 => 48_000,
        11 => 96_000,
        12 => be_value(extra) * 1000,
        13 => be_value(extra),
        _ => be_value(extra) * 10,
    }
}

/// A sample rate is read back from its code.
pub proof fn law_sample_rate_reads_back(sample_rate: u32)
    requires
        sample_rate_field(sample_rate) is Some,
    ensures
        sample_rate_of(
            sample_rate_field(sample_rate).unwrap().0,
            sample_rate_field(sample_rate).unwrap().1,
        ) == sample_rate,
{
    reveal_with_fuel(crate::bytes::byte_range, 3);
    if sample_rate / 1000 <= 255 {
        law_be_bytes_read_back((sample_rate / 1000) as nat, 1);
    }
    if sample_rate <= 65535 {
        law_be_bytes_read_back(sample_rate as nat, 2);
    }
    if sample_rate / 10 <= 65535 {
        law_be_bytes_read_back((sample_rate / 10) as nat, 2);
    }
}

/// The code of a sample rate, if it has one.
pub fn sample_rate_code(sample_rate: u32) -> (field: Option<(u8, Vec<u8>)>)
    ensures
        match field {
            Some((code, extra)) => Some((code, extra@)) == sample_rate_field(sample_rate) && code
                < 16,
            None => sample_rate_field(sample_rate) is None,
        },
{
    let mut extra: Vec<u8> = Vec::new();
    let code: u8 = match sample_rate {
        0 => {
            return None;
        },
        88_200 => 0b0001,
        176_400 => 0b0010,
        192_000 => 0b0011,
        8_000 => 0b0100,
        16_000 => 0b0101,
        22_050 => 0b0110,
        24_000 => 0b0111,
        32_000 => 0b1000,
        44_100 => 0b1001,
        48_000 => 0b1010,
        96_000 => 0b1011,
        _ => {
            if sample_rate % 1000 == 0 && sample_rate / 1000 <= 255 {
                extra.push((sample_rate / 1000) as u8);
                proof {
                    reveal_with_fuel(be_bytes, 2);
                    assert(extra@ == be_bytes((sample_rate / 1000) as nat, 1));
                }
                0b1100
            } else if sample_rate <= 65535 {
                push_be16(&mut extra, sample_rate as u16);
                assert(extra@ == be_bytes(sample_rate as nat, 2));
                0b1101
            } else if sample_rate % 10 == 0 && sample_rate / 10 <= 65535 {
                push_be16(&mut extra, (sample_rate / 10) as u16);
                assert(extra@ == be_bytes((sample_rate / 10) as nat, 2));
                0b1110
            } else {
                return None;
            }
        },
    };
    Some((code, extra))
}

/// Whether a frame header can carry a sample rate.
pub fn sample_rate_is_representable(sample_rate: u32) -> (representable: bool)
    ensures
        representable == sample_rate_field(sample_rate) is Some,
{
    sample_rate_code(sample_rate).is_some()
}

/// The number of continuation bytes of a coded number.
pub open spec fn continuation_count(value: nat) -> nat {
    if value < 0x80 {
        0
    } else if value < 0x800 {
        1
    } else if value < 0x1_0000 {
        2
    } else if value < 0x20_0000 {
        3
    } else if value < 0x400_0000 {
        4
    } else if value < 0x8000_0000 {
        5
    } else {
        6
    }
}

/// The marker in the first byte of a coded number.
pub open spec fn lead_marker(continuations: nat) -> nat {
    if continuations == 0 {
        0
    } else if continuations == 1 {
        0xc0
    } else if continuations == 2 {
        0xe0
    } else if continuations == 3 {
        0xf0
    } else if continuations == 4 {
        0xf8
    } else if continuations == 5 {
        0xfc
    } else {
        0xfe
    }
}

/// What is left of a number above its last `count` six-bit groups.
pub open spec fn number_head(value: nat, count: nat) -> nat
    decreases count,
{
    if count == 0 {
        value
    } else {
        number_head(value / 64, (count - 1) as nat)
    }
}

/// The continuation bytes for the last `count` six-bit groups of a number.
pub open spec fn number_tail(value: nat, count: nat) -> Seq<u8>
    decreases count,
{
    if count == 0 {
        Seq::empty()
    } else {
        number_tail(value / 64, (count - 1) as nat).push((0x80 + value % 64) as u8)
    }
}

/// A number in the extended UTF-8 coding.
pub open spec fn coded_number(value: nat) -> Seq<u8> {
    let count = continuation_count(value);
    seq![(lead_marker(count) + number_head(value, count)) as u8] + number_tail(value, count)
}

/// The number that a head and continuation bytes stand for.
pub open spec fn number_value(head: nat, tail: Seq<u8>) -> int
    decreases tail.len(),
{
    if tail.len() == 0 {
        head as int
    } else {
        number_value(head, tail.drop_last()) * 64 + (tail.last() - 0x80)
    }
}

/// The number of continuation bytes that a first byte announces.
pub open spec fn announced_continuations(first: u8) -> nat {
    if first < 0xc0 {
        0
    } else if first < 0xe0 {
        1
    } else if first < 0xf0 {
        2
    } else if first < 0xf8 {
        3
    } else if first < 0xfc {
        4
    } else if first < 0xfe {
        5
    } else {
        6
    }
}

proof fn lemma_number_parts(value: nat, count: nat)
    ensures
        number_tail(value, count).len() == count,
        number_value(number_head(value, count), number_tail(value, count)) == value,
    decreases count,
{
    if count > 0 {
        lemma_number_parts(value / 64, (count - 1) as nat);
        let tail = number_tail(value, count);
        assert(tail.drop_last() == number_tail(value / 64, (count - 1) as nat));
    }
}

/// A coded number is read back: its first byte announces its length, and the
/// bytes hold the number.
pub proof fn law_coded_number_reads_back(value: nat)
    requires
        value < 0x10_0000_0000,
    ensures
        ({
            let bytes = coded_number(value);
            let count = announced_continuations(bytes[0]);
            &&& bytes.len() == 1 + count
            &&& number_value((bytes[0] - lead_marker(count)) as nat, bytes.skip(1)) == value
        }),
{
    let count = continuation_count(value);
    lemma_number_parts(value, count);
    reveal_with_fuel(number_head, 7);
    let bytes = coded_number(value);
    assert(bytes.skip(1) == number_tail(value, count));
}

pub open spec fn coded_number_error(value: u64) -> ErrorView {
    ErrorView::UnsupportedFlac(
        "coded frame number "@ + decimal(value as nat) + " exceeds the FLAC limit"@,
    )
}

/// Appends the continuation bytes of a number.
fn push_number_tail(bytes: &mut Vec<u8>, value: u64, count: u8)
    ensures
        final(bytes)@ == old(bytes)@ + number_tail(value as nat, count as nat),
    decreases count,
{
    if count > 0 {
        push_number_tail(bytes, value / 64, count - 1);
        bytes.push(0x80 + (value % 64) as u8);
    }
    assert(bytes@ == old(bytes)@ + number_tail(value as nat, count as nat));
}

/// A frame number in the extended UTF-8 coding, which holds up to 36 bits.
pub fn encode_utf8_number(value: u64) -> (bytes: Result<Vec<u8>>)
    ensures
        match bytes {
            Ok(coded) => value < 0x10_0000_0000 && coded@ == coded_number(value as nat),
            Err(error) => value >= 0x10_0000_0000 && error@ == coded_number_error(value),
        },
{
    if value >= 0x10_0000_0000 {
        return Err(
            Error::UnsupportedFlac(
                numbered("coded frame number ", value, " exceeds the FLAC limit"),
            ),
        );
    }
    let (count, marker, head): (u8, u8, u64) = if value < 0x80 {
        (0, 0, value)
    } else if value < 0x800 {
        (1, 0xc0, value / 64)
    } else if value < 0x1_0000 {
        (2, 0xe0, value / 64 / 64)
    } else if value < 0x20_0000 {
        (3, 0xf0, value / 64 / 64 / 64)
    } else if value < 0x400_0000 {
        (4, 0xf8, value / 64 / 64 / 64 / 64)
    } else if value < 0x8000_0000 {
        (5, 0xfc, value / 64 / 64 / 64 / 64 / 64)
    } else {
        (6, 0xfe, value / 64 / 64 / 64 / 64 / 64 / 64)
    };
    proof {
        reveal_with_fuel(number_head, 7);
    }
    let mut bytes: Vec<u8> = Vec::new();
    bytes.push(marker + head as u8);
    push_number_tail(&mut bytes, value, count);
    assert(bytes@ == coded_number(value as nat));
    Ok(bytes)
}

/// What a frame header counts: frames of one size, or samples.
#[derive(Debug, Clone, Copy, PartialEq, Eq, Structural)]
pub enum FrameHeaderNumber {
    Frame(u64),
    Sample(u64),
}

/// The number itself.
pub open spec fn coded_value(number: FrameHeaderNumber) -> u64 {
    match number {
        FrameHeaderNumber::Frame(value) => value,
        FrameHeaderNumber::Sample(value) => value,
    }
}

/// Frames whose samples are counted may differ in size.
pub open spec fn is_variable(number: FrameHeaderNumber) -> bool {
    number is Sample
}

fn number_value_of(number: FrameHeaderNumber) -> (value: u64)
    ensures
        value == coded_value(number),
{
    match number {
        FrameHeaderNumber::Frame(value) => value,
        FrameHeaderNumber::Sample(value) => value,
    }
}

fn uses_sample_numbers(number: FrameHeaderNumber) -> (variable: bool)
    ensures
        variable == is_variable(number),
{
    match number {
        FrameHeaderNumber::Frame(_) => false,
        FrameHeaderNumber::Sample(_) => true,
    }
}

/// The fields of a header before its variable part.
pub open spec fn header_field_bits(
    block_size_code: u8,
    sample_rate_code: u8,
    assignment: ChannelAssignment,
    bit_depth_code: u8,
    variable: bool,
) -> Seq<bool> {
    unsigned_bits(FLAC_SYNC_CODE as int, 14) + seq![false, variable] + unsigned_bits(
        block_size_code as int,
        4,
    ) + unsigned_bits(sample_rate_code as int, 4) + unsigned_bits(
        assignment_code(assignment) as int,
        4,
    ) + unsigned_bits(bit_depth_code as int, 3) + seq![false]
}

/// A frame header without its check.
pub open spec fn unchecked_header(
    block_size: u16,
    sample_rate: u32,
    assignment: ChannelAssignment,
    bits_per_sample: u8,
    number: FrameHeaderNumber,
) -> Seq<u8> {
    let size = block_size_field(block_size);
    let rate = sample_rate_field(sample_rate).unwrap();
    packed(
        header_field_bits(
            size.0,
            rate.0,
            assignment,
            bit_depth_code(bits_per_sample).unwrap(),
            is_variable(number),
        ),
    ) + coded_number(coded_value(number) as nat) + size.1 + rate.1
}

pub open spec fn sample_rate_error(sample_rate: u32) -> ErrorView {
    ErrorView::UnsupportedFlac(
        "sample rate "@ + decimal(sample_rate as nat)
            + " cannot be written in a FLAC frame header"@,
    )
}

/// A frame header, or the first field that cannot be written.
#[verifier::opaque]
pub open spec fn frame_header(
    block_size: u16,
    sample_rate: u32,
    assignment: ChannelAssignment,
    bits_per_sample: u8,
    number: FrameHeaderNumber,
) -> std::result::Result<Seq<u8>, ErrorView> {
    if sample_rate_field(sample_rate) is None {
        Err(sample_rate_error(sample_rate))
    } else if bit_depth_code(bits_per_sample) is None {
        Err(bit_depth_error(bits_per_sample))
    } else if coded_value(number) >= 0x10_0000_0000 {
        Err(coded_number_error(coded_value(number)))
    } else {
        let header = unchecked_header(
            block_size,
            sample_rate,
            assignment,
            bits_per_sample,
            number,
        );
        Ok(header.push(crc8_of(header)))
    }
}

/// Writes the fields of a header before its variable part.
fn write_header_fields(
    writer: &mut FrameBitWriter,
    size_code: u8,
    rate_code: u8,
    assignment: ChannelAssignment,
    depth_code: u8,
    variable: bool,
) -> (result: Result<()>)
    requires
        size_code < 16,
        rate_code < 16,
        depth_code < 8,
    ensures
        result is Ok,
        written_bits(*final(writer)) == written_bits(*old(writer)) + header_field_bits(
            size_code,
            rate_code,
            assignment,
            depth_code,
            variable,
        ),
{
    let ghost before = written_bits(*writer);
    proof {
        vstd::arithmetic::power2::lemma2_to64();
    }
    match wrote(writer.write_unsigned(14, FLAC_SYNC_CODE as u32)) {
        Ok(()) => {},
        Err(error) => return Err(error),
    }
    match wrote(writer.write_bit(false)) {
        Ok(()) => {},
        Err(error) => return Err(error),
    }
    match wrote(writer.write_bit(variable)) {
        Ok(()) => {},
        Err(error) => return Err(error),
    }
    match wrote(writer.write_unsigned(4, size_code as u32)) {
        Ok(()) => {},
        Err(error) => return Err(error),
    }
    match wrote(writer.write_unsigned(4, rate_code as u32)) {
        Ok(()) => {},
        Err(error) => return Err(error),
    }
    match wrote(writer.write_unsigned(4, channel_assignment_bits(assignment) as u32)) {
        Ok(()) => {},
        Err(error) => return Err(error),
    }
    match wrote(writer.write_unsigned(3, depth_code as u32)) {
        Ok(()) => {},
        Err(error) => return Err(error),
    }
    match wrote(writer.write_bit(false)) {
        Ok(()) => {},
        Err(error) => return Err(error),
    }
    assert(written_bits(*writer) == before + header_field_bits(
        size_code,
        rate_code,
        assignment,
        depth_code,
        variable,
    ));
    Ok(())
}

/// Packs the fields and the variable part of a header into bytes.
#[verifier::rlimit(50)]
fn pack_header(
    size_code: u8,
    rate_code: u8,
    assignment: ChannelAssignment,
    depth_code: u8,
    variable: bool,
    number: &[u8],
    size_extra: &[u8],
    rate_extra: &[u8],
) -> (header: Result<Vec<u8>>)
    requires
        size_code < 16,
        rate_code < 16,
        depth_code < 8,
    ensures
        header matches Ok(bytes) && bytes@ == packed(
            header_field_bits(size_code, rate_code, assignment, depth_code, variable),
        ) + number@ + size_extra@ + rate_extra@,
{
    let mut writer = FrameBitWriter::new();
    match write_header_fields(
        &mut writer,
        size_code,
        rate_code,
        assignment,
        depth_code,
        variable,
    ) {
        Ok(()) => {},
        Err(error) => return Err(error),
    }
    let ghost fields = header_field_bits(size_code, rate_code, assignment, depth_code, variable);
    assert(written_bits(writer) == fields);
    match wrote(writer.write_bytes(number)) {
        Ok(()) => {},
        Err(error) => return Err(error),
    }
    match wrote(writer.write_bytes(size_extra)) {
        Ok(()) => {},
        Err(error) => return Err(error),
    }
    match wrote(writer.write_bytes(rate_extra)) {
        Ok(()) => {},
        Err(error) => return Err(error),
    }
    let ghost tail = number@ + size_extra@ + rate_extra@;
    proof {
        lemma_byte_bits_concat(number@, size_extra@);
        lemma_byte_bits_concat(number@ + size_extra@, rate_extra@);
        lemma_byte_bits_len(tail);
        lemma_unsigned_bits_len(FLAC_SYNC_CODE as int, 14);
        lemma_unsigned_bits_len(size_code as int, 4);
        lemma_unsigned_bits_len(rate_code as int, 4);
        lemma_unsigned_bits_len(assignment_code(assignment) as int, 4);
        lemma_unsigned_bits_len(depth_code as int, 3);
        assert(fields.len() == 32);
        assert(written_bits(writer) == fields + byte_bits(tail));
    }
    match wrote(writer.byte_align()) {
        Ok(()) => {},
        Err(error) => return Err(error),
    }
    assert(written_bits(writer) == fields + byte_bits(tail));
    let ghost bits = written_bits(writer);
    let header = writer.into_bytes();
    proof {
        assert(bits.take(bits.len() as int) == bits);
        lemma_packed_bits(header@);
        lemma_packed_concat(fields, tail);
        assert(header@ == packed(fields) + tail);
        assert(packed(fields) + tail == packed(fields) + number@ + size_extra@ + rate_extra@);
    }
    Ok(header)
}

/// Writes a frame header.
pub fn encode_frame_header(
    block_size: u16,
    sample_rate: u32,
    assignment: ChannelAssignment,
    bits_per_sample: u8,
    number: FrameHeaderNumber,
) -> (header: Result<Vec<u8>>)
    requires
        block_size >= 1,
    ensures
        match frame_header(block_size, sample_rate, assignment, bits_per_sample, number) {
            Ok(expected) => header matches Ok(bytes) && bytes@ == expected,
            Err(expected) => header matches Err(error) && error@ == expected,
        },
{
    proof {
        reveal(frame_header);
    }
    let (size_code, size_extra) = block_size_code(block_size);
    let (rate_code, rate_extra) = match sample_rate_code(sample_rate) {
        Some(field) => field,
        None => {
            return Err(
                Error::UnsupportedFlac(
                    numbered(
                        "sample rate ",
                        sample_rate as u64,
                        " cannot be written in a FLAC frame header",
                    ),
                ),
            );
        },
    };
    let depth_code: u8 = match bit_depth_bits(bits_per_sample) {
        Ok(code) => code,
        Err(error) => return Err(error),
    };
    let number_bytes = match encode_utf8_number(number_value_of(number)) {
        Ok(bytes) => bytes,
        Err(error) => return Err(error),
    };
    let mut header = match pack_header(
        size_code,
        rate_code,
        assignment,
        depth_code,
        uses_sample_numbers(number),
        number_bytes.as_slice(),
        size_extra.as_slice(),
        rate_extra.as_slice(),
    ) {
        Ok(header) => header,
        Err(error) => return Err(error),
    };
    let check: u8 = crc8(header.as_slice());
    header.push(check);
    Ok(header)
}

/// Whole bytes after whole bytes.
pub proof fn lemma_packed_concat(bits: Seq<bool>, bytes: Seq<u8>)
    requires
        bits.len() % 8 == 0,
    ensures
        packed(bits + byte_bits(bytes)) == packed(bits) + bytes,
{
    lemma_byte_bits_len(bytes);
    lemma_packed_bits(bytes);
    let whole = bits + byte_bits(bytes);
    let count = (bits.len() / 8) as int;
    assert forall|i: int| 0 <= i < whole.len() / 8 implies packed(whole)[i] == (packed(bits)
        + bytes)[i] by {
        if i < count {
            assert(whole.subrange(8 * i, 8 * i + 8) == bits.subrange(8 * i, 8 * i + 8));
        } else {
            assert(whole.subrange(8 * i, 8 * i + 8) == byte_bits(bytes).subrange(
                8 * (i - count),
                8 * (i - count) + 8,
            ));
            assert(packed(byte_bits(bytes))[i - count] == bytes[i - count]);
        }
    }
    assert(packed(whole) == packed(bits) + bytes);
}

} // verus!
