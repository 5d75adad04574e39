//! What the fields of a FLAC stream stand for, as the format publishes it.

use vstd::arithmetic::power2::{lemma2_to64, pow2};
use vstd::prelude::*;

use crate::bytes::{be_bytes, be_value};
use crate::flac_writer::{block_header, FLAC_MARKER};
use crate::frame_header::{announced_continuations, assignment_code, bit_depth_code, block_size_field, block_size_of, channel_count, channel_widths, coded_number, continuation_count, independent_assignment, number_head, number_tail, sample_rate_field, sample_rate_of, ChannelAssignment};
use crate::frame_reading::{assignment_of, bit_depth_of, block_size_extra, header_rate, header_width, sample_rate_extra, StreamFormat};
use crate::lossless::stereo_pair;
use crate::rice::{folded, RiceMethod};
use crate::stream_info::{info_bytes, info_fits, law_stream_info_reads_back, StreamInfo};

verus! {

/// The sample rates that have a code of their own, each at the place of its code. There is
/// none at the place of zero.
pub open spec fn published_rates() -> Seq<nat> {
    seq![
        0,
        88_200,
        176_400,
        192_000,
        8_000,
        16_000,
        22_050,
        24_000,
        32_000,
        44_100,
        48_000,
        96_000,
    ]
}

proof fn lemma_two_bytes(value: nat)
    requires
        value < 0x1_0000,
    ensures
        be_bytes(value, 2).len() == 2,
        be_bytes(value, 2)[0] * 256 + be_bytes(value, 2)[1] == value,
{
    reveal_with_fuel(be_bytes, 3);
}

proof fn lemma_one_byte(value: nat)
    requires
        value < 0x100,
    ensures
        be_bytes(value, 1).len() == 1,
        be_bytes(value, 1)[0] == value,
{
    reveal_with_fuel(be_bytes, 2);
}

/// The code of a sample rate is that of the format: the published one where the rate has one,
/// and otherwise one that says the rate in kilohertz, in hertz or in tens of hertz, in that
/// order, in the bytes behind the coded number. A rate that none of them says has no code.
pub proof fn law_sample_rates_have_their_published_codes(sample_rate: u32)
    ensures
        forall|code: int|
            1 <= code <= 11 && #[trigger] published_rates()[code] == sample_rate
                ==> sample_rate_field(sample_rate) == Some((code as u8, Seq::<u8>::empty())),
        sample_rate_field(sample_rate) matches Some((code, extra)) ==> {
            ||| 1 <= code <= 11 && extra.len() == 0 && published_rates()[code as int] == sample_rate
            ||| code == 12 && extra.len() == 1 && 1000 * extra[0] == sample_rate
            ||| code == 13 && extra.len() == 2 && extra[0] * 256 + extra[1] == sample_rate && (
            sample_rate % 1000 != 0 || sample_rate > 255_000)
            ||| code == 14 && extra.len() == 2 && 10 * (extra[0] * 256 + extra[1]) == sample_rate
                && sample_rate > 65_535
        },
        sample_rate_field(sample_rate) is None <==> {
            ||| sample_rate == 0
            ||| !published_rates().contains(sample_rate as nat) && (sample_rate % 1000 != 0
                || sample_rate > 255_000) && sample_rate > 65_535 && (sample_rate % 10 != 0
                || sample_rate > 655_350)
        },
{
    let rates = published_rates();
    if sample_rate / 1000 <= 255 {
        lemma_one_byte((sample_rate / 1000) as nat);
    }
    if sample_rate <= 65_535 {
        lemma_two_bytes(sample_rate as nat);
    }
    if sample_rate / 10 <= 65_535 {
        lemma_two_bytes((sample_rate / 10) as nat);
    }
    assert(rates[1] == 88_200 && rates[2] == 176_400 && rates[3] == 192_000 && rates[4] == 8_000);
    assert(rates[5] == 16_000 && rates[6] == 22_050 && rates[7] == 24_000 && rates[8] == 32_000);
    assert(rates[9] == 44_100 && rates[10] == 48_000 && rates[11] == 96_000 && rates[0] == 0);
}

/// A frame header says the published rate of its code, or the rate in kilohertz, in hertz or in
/// tens of hertz that the bytes behind its coded number say; the code zero leaves the rate to
/// the stream.
pub proof fn law_rate_codes_stand_for_their_published_rates(
    code: u8,
    extra: Seq<u8>,
    format: StreamFormat,
)
    requires
        code <= 14,
        code == 12 ==> extra.len() == 1,
        code == 13 || code == 14 ==> extra.len() == 2,
    ensures
        header_rate(code, extra, format) == if code == 0 {
            format.sample_rate as int
        } else if code <= 11 {
            published_rates()[code as int] as int
        } else if code == 12 {
            1000 * extra[0]
        } else if code == 13 {
            extra[0] * 256 + extra[1]
        } else {
            10 * (extra[0] * 256 + extra[1])
        },
        1 <= code <= 11 ==> sample_rate_of(code, extra) == published_rates()[code as int],
{
    reveal_with_fuel(be_value, 3);
    let rates = published_rates();
    assert(rates[1] == 88_200 && rates[2] == 176_400 && rates[3] == 192_000 && rates[4] == 8_000);
    assert(rates[5] == 16_000 && rates[6] == 22_050 && rates[7] == 24_000 && rates[8] == 32_000);
    assert(rates[9] == 44_100 && rates[10] == 48_000 && rates[11] == 96_000);
    if extra.len() == 1 {
        assert(extra.drop_last().len() == 0);
    }
    if extra.len() == 2 {
        assert(extra.drop_last().drop_last().len() == 0);
        assert(extra.drop_last().last() == extra[0]);
    }
}

/// The block size of a code of its own: 192 samples, 576 doubled up to three times, or 256
/// doubled up to seven times.
pub open spec fn published_block_size(code: int) -> nat {
    if code == 1 {
        192
    } else if code <= 5 {
        576 * pow2((code - 2) as nat)
    } else {
        256 * pow2((code - 8) as nat)
    }
}

/// Whether a block size code says the size by itself.
pub open spec fn is_size_code(code: int) -> bool {
    1 <= code <= 5 || 8 <= code <= 15
}

/// The code of a block size is that of the format, and reads as the size: the published one
/// where the size has one, and otherwise one byte or two behind the coded number that say the
/// size less one.
pub proof fn law_block_sizes_have_their_published_codes(block_size: u16, code: u8, extra: Seq<u8>)
    requires
        block_size >= 1,
    ensures
        forall|own: int|
            is_size_code(own) && #[trigger] published_block_size(own) == block_size
                ==> block_size_field(block_size) == (own as u8, Seq::<u8>::empty()),
        ({
            let (chosen, bytes) = block_size_field(block_size);
            ||| is_size_code(chosen as int) && bytes.len() == 0 && published_block_size(
                chosen as int,
            ) == block_size
            ||| chosen == 6 && bytes.len() == 1 && bytes[0] + 1 == block_size
            ||| chosen == 7 && bytes.len() == 2 && bytes[0] * 256 + bytes[1] + 1 == block_size
                && block_size > 256
        }),
        is_size_code(code as int) ==> block_size_of(code, extra) == published_block_size(
            code as int,
        ),
        code == 6 && extra.len() == 1 ==> block_size_of(code, extra) == extra[0] + 1,
        code == 7 && extra.len() == 2 ==> block_size_of(code, extra) == extra[0] * 256 + extra[1]
            + 1,
{
    lemma2_to64();
    reveal_with_fuel(be_value, 3);
    if block_size <= 256 {
        lemma_one_byte((block_size - 1) as nat);
    }
    lemma_two_bytes((block_size - 1) as nat);
    if extra.len() == 1 {
        assert(extra.drop_last().len() == 0);
    }
    if extra.len() == 2 {
        assert(extra.drop_last().drop_last().len() == 0);
        assert(extra.drop_last().last() == extra[0]);
    }
    assert(published_block_size(1) == 192 && published_block_size(2) == 576);
    assert(published_block_size(3) == 1152 && published_block_size(4) == 2304);
    assert(published_block_size(5) == 4608 && published_block_size(8) == 256);
    assert(published_block_size(9) == 512 && published_block_size(10) == 1024);
    assert(published_block_size(11) == 2048 && published_block_size(12) == 4096);
    assert(published_block_size(13) == 8192 && published_block_size(14) == 16384);
    assert(published_block_size(15) == 32768);
}

/// The sample widths that have a code, each at the place of its code; zero where there is none.
pub open spec fn published_widths() -> Seq<nat> {
    seq![0, 8, 12, 0, 16, 20, 24, 32]
}

/// The code of a sample width is that of the format, and reads as the width; the code zero
/// leaves the width to the stream.
pub proof fn law_sample_widths_have_their_published_codes(
    bits_per_sample: u8,
    code: u8,
    format: StreamFormat,
)
    requires
        code <= 7,
    ensures
        bit_depth_code(bits_per_sample) == Some(code) <==> bits_per_sample != 0
            && published_widths()[code as int] == bits_per_sample,
        bit_depth_code(bits_per_sample) is None <==> bits_per_sample == 0
            || !published_widths().contains(bits_per_sample as nat),
        code != 0 && code != 3 ==> header_width(code, format) == published_widths()[code as int],
        code != 0 && code != 3 ==> bit_depth_of(code) == published_widths()[code as int],
        code == 0 ==> header_width(code, format) == format.bits_per_sample,
{
    let widths = published_widths();
    assert(widths[0] == 0 && widths[1] == 8 && widths[2] == 12 && widths[3] == 0);
    assert(widths[4] == 16 && widths[5] == 20 && widths[6] == 24 && widths[7] == 32);
}

/// The code of a channel assignment is that of the format: one less than the number of channels
/// that are stored as they are, and 8, 9 and 10 for stereo with a side channel behind the left
/// one, before the right one and behind the mean. The code reads as the assignment.
pub proof fn law_channel_assignments_have_their_published_codes(
    assignment: ChannelAssignment,
    channels: u8,
    code: u8,
)
    requires
        1 <= channels <= 8,
        code <= 10,
    ensures
        assignment_code(independent_assignment(channels)) == channels - 1,
        channel_count(independent_assignment(channels)) == channels,
        assignment_code(ChannelAssignment::LeftSide) == 8,
        assignment_code(ChannelAssignment::SideRight) == 9,
        assignment_code(ChannelAssignment::MidSide) == 10,
        assignment_of(assignment_code(assignment)) == assignment,
        assignment_code(assignment_of(code)) == code,
        channel_count(assignment_of(code)) == if code < 8 {
            code + 1
        } else {
            2
        },
{
}

/// The two channels of a stereo frame come back from what is stored of them: the difference of
/// left and right for a side channel, which takes one bit more, and the mean, rounded down, for
/// a middle one.
pub proof fn law_stored_stereo_comes_back(left: int, right: int, bits_per_sample: nat)
    ensures
        stereo_pair(ChannelAssignment::IndependentStereo, left, right) == (left, right),
        stereo_pair(ChannelAssignment::LeftSide, left, left - right) == (left, right),
        stereo_pair(ChannelAssignment::SideRight, left - right, right) == (left, right),
        stereo_pair(ChannelAssignment::MidSide, (left + right) / 2, left - right) == (left, right),
        channel_widths(ChannelAssignment::IndependentStereo, bits_per_sample) == (
            bits_per_sample,
            bits_per_sample,
        ),
        channel_widths(ChannelAssignment::LeftSide, bits_per_sample) == (
            bits_per_sample,
            bits_per_sample + 1,
        ),
        channel_widths(ChannelAssignment::SideRight, bits_per_sample) == (
            bits_per_sample + 1,
            bits_per_sample,
        ),
        channel_widths(ChannelAssignment::MidSide, bits_per_sample) == (
            bits_per_sample,
            bits_per_sample + 1,
        ),
{
}

/// A coded number is the shortest run of bytes in the manner of UTF-8 that holds it: a byte
/// below 128 by itself, or a first byte that opens with as many ones as there are bytes and
/// then a zero, and six bits of the number in each byte behind it.
pub proof fn law_coded_numbers_are_extended_utf8(value: nat)
    requires
        value < 0x10_0000_0000,
    ensures
        ({
            let bytes = coded_number(value);
            let count = bytes.len();
            let ones = 256 - pow2((8 - count) as nat);
            &&& 1 <= count <= 7
            &&& count == 1 ==> bytes[0] == value && value < 128
            &&& count == 2 ==> 128 <= value
            &&& count > 2 ==> pow2((5 * count - 4) as nat) <= value
            &&& count > 1 ==> ones <= bytes[0] < ones + pow2((7 - count) as nat)
            &&& count > 1 ==> announced_continuations(bytes[0]) == count - 1
            &&& forall|i: int| 1 <= i < count ==> 128 <= #[trigger] bytes[i] < 192
            &&& count == 2 ==> value == (bytes[0] - ones) * 64 + (bytes[1] - 128)
            &&& count == 3 ==> value == ((bytes[0] - ones) * 64 + (bytes[1] - 128)) * 64 + (bytes[2]
                - 128)
            &&& count == 4 ==> value == (((bytes[0] - ones) * 64 + (bytes[1] - 128)) * 64 + (
            bytes[2] - 128)) * 64 + (bytes[3] - 128)
            &&& count == 5 ==> value == ((((bytes[0] - ones) * 64 + (bytes[1] - 128)) * 64 + (
            bytes[2] - 128)) * 64 + (bytes[3] - 128)) * 64 + (bytes[4] - 128)
            &&& count == 6 ==> value == (((((bytes[0] - ones) * 64 + (bytes[1] - 128)) * 64 + (
            bytes[2] - 128)) * 64 + (bytes[3] - 128)) * 64 + (bytes[4] - 128)) * 64 + (bytes[5]
                - 128)
            &&& count == 7 ==> value == ((((((bytes[0] - ones) * 64 + (bytes[1] - 128)) * 64 + (
            bytes[2] - 128)) * 64 + (bytes[3] - 128)) * 64 + (bytes[4] - 128)) * 64 + (bytes[5]
                - 128)) * 64 + (bytes[6] - 128)
        }),
{
    lemma2_to64();
    reveal_with_fuel(number_head, 7);
    reveal_with_fuel(number_tail, 7);
    let count = continuation_count(value);
    assert(number_tail(value, count).len() == count);
}

/// The header of a metadata block is its type, below a bit that is set for the last one, and
/// the size of its payload in three bytes.
pub proof fn law_block_headers_say_type_and_size(block_type: u8, is_last: bool, size: nat)
    requires
        block_type < 128,
        size < 0x100_0000,
    ensures
        ({
            let header = block_header(block_type, is_last, size);
            &&& header.len() == 4
            &&& header[0] % 128 == block_type
            &&& (header[0] >= 128) == is_last
            &&& (header[1] * 256 + header[2]) * 256 + header[3] == size
            &&& FLAC_MARKER@ == seq!['f' as u8, 'L' as u8, 'a' as u8, 'C' as u8]
        }),
{
    reveal_with_fuel(be_bytes, 4);
}

/// The payload of a STREAMINFO block holds its fields where the format has them, in bits from
/// the first on: the block sizes in 16 each, the frame sizes in 24 each, the rate in 20, the
/// channels less one in 3, the sample width less one in 5, the length in 36, and the digest.
pub proof fn law_stream_info_has_the_published_layout(info: StreamInfo)
    requires
        info_fits(info),
        info.min_frame_size < 0x100_0000,
        info.max_frame_size < 0x100_0000,
    ensures
        ({
            let payload = info_bytes(info);
            let word = be_value(payload.subrange(10, 18)) as int;
            &&& payload.len() == 34
            &&& be_value(payload.subrange(0, 2)) == info.min_block_size
            &&& be_value(payload.subrange(2, 4)) == info.max_block_size
            &&& be_value(payload.subrange(4, 7)) == info.min_frame_size
            &&& be_value(payload.subrange(7, 10)) == info.max_frame_size
            &&& word / 0x1000_0000_0000 == info.sample_rate
            &&& word / 0x200_0000_0000 % 8 == info.channels - 1
            &&& word / 0x10_0000_0000 % 32 == info.bits_per_sample - 1
            &&& word % 0x10_0000_0000 == info.total_samples
            &&& payload.subrange(18, 34) == info.md5@
        }),
{
    law_stream_info_reads_back(info);
    let payload = info_bytes(info);
    assert(payload.subrange(18, 34) == payload.skip(18));
}

/// The fields of a coded residual are as wide as the format has them: the code of the method is
/// 0 for parameters of four bits and 1 for those of five, all ones mark an escaped partition,
/// and every smaller number is a parameter.
pub proof fn law_rice_methods_have_their_published_fields(method: RiceMethod)
    ensures
        method.spec_parameter_bits() == 4 + method.spec_code(),
        method.spec_code() == if method == RiceMethod::FourBit {
            0int
        } else {
            1
        },
        method.spec_escape_code() + 1 == pow2(method.spec_parameter_bits() as nat),
        method.spec_max_parameter() + 1 == method.spec_escape_code(),
{
    lemma2_to64();
}

/// Residuals are folded in the order 0, -1, 1, -2, 2 and so on: a larger magnitude never has a
/// smaller number, and of a pair the negative one comes first.
pub proof fn law_residuals_fold_by_magnitude(residual: int)
    ensures
        folded(0) == 0,
        residual > 0 ==> folded(-residual) == folded(residual - 1) + 1,
        residual > 0 ==> folded(residual) == folded(-residual) + 1,
{
}

/// A first byte announces as many bytes behind it as it has leading ones, less one: a zero
/// follows the ones. Bytes below 192 announce none.
pub proof fn law_leading_ones_announce_bytes(first: u8, count: nat)
    requires
        first < 0xff,
        1 <= count <= 6,
    ensures
        announced_continuations(first) == count <==> first as nat / pow2((6 - count) as nat)
            == pow2(count + 2) - 2,
        announced_continuations(first) == 0 <==> first < 192,
{
    lemma2_to64();
    let shifted = pow2((6 - count) as nat);
    let ones = pow2(count + 2);
    if count == 1 {
        assert(shifted == 32 && ones == 8);
        assert(first as nat / shifted == first as nat / 32);
    } else if count == 2 {
        assert(shifted == 16 && ones == 16);
        assert(first as nat / shifted == first as nat / 16);
    } else if count == 3 {
        assert(shifted == 8 && ones == 32);
        assert(first as nat / shifted == first as nat / 8);
    } else if count == 4 {
        assert(shifted == 4 && ones == 64);
        assert(first as nat / shifted == first as nat / 4);
    } else if count == 5 {
        assert(shifted == 2 && ones == 128);
        assert(first as nat / shifted == first as nat / 2);
    } else {
        assert(shifted == 1 && ones == 256);
        assert(first as nat / shifted == first as nat / 1);
    }
}

/// The size of a block takes a byte behind the code 6 and two behind the code 7, and the rate
/// takes one behind 12 and two behind 13 and 14; other codes stand for themselves.
pub proof fn law_codes_say_how_many_bytes_follow(code: u8)
    ensures
        block_size_extra(code) == 1 <==> code == 6,
        block_size_extra(code) == 2 <==> code == 7,
        block_size_extra(code) == 0 <==> code != 6 && code != 7,
        sample_rate_extra(code) == 1 <==> code == 12,
        sample_rate_extra(code) == 2 <==> code == 13 || code == 14,
        sample_rate_extra(code) == 0 <==> !(12 <= code <= 14),
{
}

} // verus!
