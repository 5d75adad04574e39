//! Decoding whole frames.

use vstd::arithmetic::div_mod::{lemma_fundamental_div_mod, lemma_fundamental_div_mod_converse};
use vstd::arithmetic::power2::{lemma_pow2_pos, lemma_pow2_unfold, pow2};
use vstd::prelude::*;
use vstd::slice::slice_subrange;

use crate::bit_reader::{bits_at, read_number};
use crate::bits::{bits_value, byte_bits, lemma_byte_bits_len};
use crate::bytes::{be_bytes, bytes_equal, lemma_be_value_bound, lemma_byte_ranges, push_be_bytes, read_be};
use crate::crc::{crc16, crc16_of, crc8};
use crate::frame_header::{announced_continuations, assign_independent, block_size_of, channel_bits_per_sample, channel_count, channel_widths, count_channels, lead_marker, number_value, sample_rate_of, width_at, ChannelAssignment, FLAC_SYNC_CODE, MAX_CHANNELS};
use crate::frame_reading::{assignment_of, bit_depth_of, block_size_extra, number_is_formed, read_body, read_channels, read_codes, read_front, read_header, sample_rate_extra, HeaderCodes, HeaderView, StreamFormat};
use crate::lossless::{frame_signal, stereo_pair, subframe_signal};
use crate::prediction::ints;
use crate::reading::{partition_len, read_coded, read_encoding, read_partition, read_partitions, read_rice_run, read_sample_run, read_subframe, read_unary, read_wasted};
use crate::residual::is_valid_partition_order;
use crate::restoring::{is_restorable, is_sample, lemma_narrow_samples, lemma_signal_len, narrow, restore_pair, restore_signal};
use crate::rice::{joined_residuals, partition_residuals, RiceMethod};
use crate::subframe::{AnalyzedSubframe, SubframeView};
use crate::subframe_reading::read_analyzed_subframe;

verus! {

proof fn lemma_value_bound(bits: Seq<bool>)
    ensures
        bits_value(bits) < pow2(bits.len()),
    decreases bits.len(),
{
    vstd::arithmetic::power2::lemma2_to64();
    if bits.len() > 0 {
        lemma_value_bound(bits.drop_last());
        lemma_pow2_unfold(bits.len());
    }
}

proof fn lemma_rice_run_len(bits: Seq<bool>, parameter: nat, count: nat)
    ensures
        read_rice_run(bits, parameter, count) matches Some((residuals, _)) ==> residuals.len()
            == count,
    decreases count,
{
    if count > 0 {
        lemma_rice_run_len(bits, parameter, (count - 1) as nat);
    }
}

proof fn lemma_sample_run_len(bits: Seq<bool>, width: nat, count: nat)
    ensures
        read_sample_run(bits, width, count) matches Some((samples, _)) ==> samples.len() == count,
    decreases count,
{
    if count > 0 {
        lemma_sample_run_len(bits, width, (count - 1) as nat);
    }
}

proof fn lemma_partition_holds(bits: Seq<bool>, method: RiceMethod, count: nat)
    ensures
        read_partition(bits, method, count) matches Some((partition, _)) ==> partition_residuals(
            partition,
        ).len() == count,
{
    if let Some((parameter, rest)) = crate::reading::read_unsigned(
        bits,
        method.spec_parameter_bits() as nat,
    ) {
        lemma_rice_run_len(rest, parameter, count);
        if let Some((width, rest)) = crate::reading::read_unsigned(rest, 5) {
            lemma_sample_run_len(rest, width, count);
        }
    }
}

proof fn lemma_partitions_hold(
    bits: Seq<bool>,
    method: RiceMethod,
    block_size: nat,
    predictor_order: nat,
    partition_order: nat,
    count: nat,
)
    requires
        is_valid_partition_order(block_size, predictor_order, partition_order),
    ensures
        read_partitions(
            bits,
            method,
            block_size,
            predictor_order,
            partition_order,
            count,
        ) matches Some((partitions, _)) ==> {
            &&& partitions.len() == count
            &&& count > 0 ==> joined_residuals(partitions).len() + predictor_order == count * (
            block_size / pow2(partition_order))
        },
    decreases count,
{
    if count > 0 {
        let span = (block_size / pow2(partition_order)) as int;
        lemma_partitions_hold(
            bits,
            method,
            block_size,
            predictor_order,
            partition_order,
            (count - 1) as nat,
        );
        if let Some((earlier, rest)) = read_partitions(
            bits,
            method,
            block_size,
            predictor_order,
            partition_order,
            (count - 1) as nat,
        ) {
            let length = partition_len(
                block_size,
                predictor_order,
                partition_order,
                (count - 1) as nat,
            );
            lemma_partition_holds(rest, method, length);
            if let Some((partition, _)) = read_partition(rest, method, length) {
                assert(earlier.push(partition).drop_last() == earlier);
                assert(count * span == (count - 1) * span + span) by (nonlinear_arith);
                if count == 1 {
                    assert(joined_residuals(earlier).len() == 0);
                }
            }
        }
    }
}

proof fn lemma_encoding_holds(bits: Seq<bool>, block_size: nat, predictor_order: nat)
    ensures
        read_encoding(bits, block_size, predictor_order) matches Some((encoding, _))
            ==> joined_residuals(encoding.partitions).len() + predictor_order == block_size,
{
    if let Some((code, rest)) = crate::reading::read_unsigned(bits, 2) {
        if let Some((partition_order, rest)) = crate::reading::read_unsigned(rest, 4) {
            let method = if code == 0 {
                RiceMethod::FourBit
            } else {
                RiceMethod::FiveBit
            };
            let total = pow2(partition_order);
            lemma_pow2_pos(partition_order);
            if is_valid_partition_order(block_size, predictor_order, partition_order) {
                lemma_partitions_hold(
                    rest,
                    method,
                    block_size,
                    predictor_order,
                    partition_order,
                    total,
                );
                vstd::arithmetic::div_mod::lemma_fundamental_div_mod(
                    block_size as int,
                    total as int,
                );
            }
        }
    }
}

pub proof fn lemma_coded_is_restorable(
    bits: Seq<bool>,
    code: nat,
    bits_per_sample: nat,
    block_size: nat,
)
    requires
        code < 64,
    ensures
        read_coded(bits, code, bits_per_sample, block_size) matches Some((subframe, _))
            ==> is_restorable(subframe, block_size),
{
    vstd::arithmetic::power2::lemma2_to64();
    if code == 1 {
        lemma_sample_run_len(bits, bits_per_sample, block_size);
    } else if 8 <= code <= 12 {
        let order = (code - 8) as nat;
        lemma_sample_run_len(bits, bits_per_sample, order);
        if let Some((warmup, rest)) = read_sample_run(bits, bits_per_sample, order) {
            lemma_encoding_holds(rest, block_size, order);
        }
    } else if code >= 32 {
        let order = (code - 31) as nat;
        lemma_sample_run_len(bits, bits_per_sample, order);
        if let Some((warmup, rest)) = read_sample_run(bits, bits_per_sample, order) {
            if let Some((precision, rest)) = crate::reading::read_unsigned(rest, 4) {
                lemma_value_bound(rest.take(5));
                if let Some((shift, rest)) = crate::reading::read_signed(rest, 5) {
                    lemma_sample_run_len(rest, precision + 1, order);
                    if let Some((coefficients, rest)) = read_sample_run(
                        rest,
                        precision + 1,
                        order,
                    ) {
                        lemma_encoding_holds(rest, block_size, order);
                    }
                }
            }
        }
    }
}

/// A subframe that was read can be restored.
proof fn lemma_wasted_is_restorable(
    bits: Seq<bool>,
    code: nat,
    bits_per_sample: nat,
    block_size: nat,
)
    requires
        code < 64,
    ensures
        read_wasted(bits, code, bits_per_sample, block_size) matches Some((subframe, _))
            ==> is_restorable(subframe, block_size),
{
    if let Some((more, rest)) = read_unary(bits) {
        if more + 1 < bits_per_sample {
            let width = (bits_per_sample - (more + 1)) as nat;
            lemma_coded_is_restorable(rest, code, width, block_size);
            if let Some((subframe, _)) = read_coded(rest, code, width, block_size) {
                lemma_signal_len(subframe, block_size);
            }
        }
    }
}

proof fn lemma_read_is_restorable(bits: Seq<bool>, bits_per_sample: nat, block_size: nat)
    ensures
        read_subframe(bits, bits_per_sample, block_size) matches Some((subframe, _))
            ==> is_restorable(subframe, block_size),
{
    reveal(read_subframe);
    vstd::arithmetic::power2::lemma2_to64();
    if let Some((_, rest)) = crate::reading::read_unsigned(bits, 1) {
        lemma_value_bound(rest.take(6));
        if let Some((code, rest)) = crate::reading::read_unsigned(rest, 6) {
            if let Some((_, rest)) = crate::reading::read_unsigned(rest, 1) {
                lemma_coded_is_restorable(rest, code, bits_per_sample, block_size);
                lemma_wasted_is_restorable(rest, code, bits_per_sample, block_size);
            }
        }
    }
}

/// The header of a frame.
#[derive(Debug, Clone, Copy)]
pub struct FrameHeader {
    pub block_size: u32,
    pub sample_rate: u32,
    pub assignment: ChannelAssignment,
    pub bits_per_sample: u8,
    pub number: u64,
    pub variable: bool,
}

impl View for FrameHeader {
    type V = HeaderView;

    open spec fn view(&self) -> HeaderView {
        HeaderView {
            block_size: self.block_size as nat,
            sample_rate: self.sample_rate as nat,
            assignment: self.assignment,
            bits_per_sample: self.bits_per_sample as nat,
            number: self.number as int,
            variable: self.variable,
        }
    }
}

/// Reads the codes in the first four bytes of a header.
fn read_header_codes(head: &[u8]) -> (codes: Option<HeaderCodes>)
    requires
        head@.len() == 4,
    ensures
        codes == read_codes(byte_bits(head@)),
{
    proof {
        lemma_byte_bits_len(head@);
        vstd::arithmetic::power2::lemma2_to64();
        assert(bits_at(head@, 0) == byte_bits(head@));
    }
    let (sync, place) = match read_number(head, 0, 14) {
        None => return None,
        Some(found) => found,
    };
    let (blocking, place) = match read_number(head, place, 2) {
        None => return None,
        Some(found) => found,
    };
    let (block_size, place) = match read_number(head, place, 4) {
        None => return None,
        Some(found) => found,
    };
    let (sample_rate, place) = match read_number(head, place, 4) {
        None => return None,
        Some(found) => found,
    };
    let (assignment, place) = match read_number(head, place, 4) {
        None => return None,
        Some(found) => found,
    };
    let (bit_depth, place) = match read_number(head, place, 3) {
        None => return None,
        Some(found) => found,
    };
    let (reserved, _) = match read_number(head, place, 1) {
        None => return None,
        Some(found) => found,
    };
    let codes = HeaderCodes {
        block_size: block_size as u8,
        sample_rate: sample_rate as u8,
        assignment: assignment as u8,
        bit_depth: bit_depth as u8,
        variable: blocking == 1,
    };
    if sync == FLAC_SYNC_CODE as u64 && blocking <= 1 && reserved == 0 && (1 <= codes.block_size
        && codes.block_size <= 15) && codes.sample_rate <= 14 && codes.assignment <= 10
        && codes.bit_depth <= 7 && codes.bit_depth != 3 {
        Some(codes)
    } else {
        None
    }
}

/// The number of continuation bytes that a first byte announces.
fn count_continuations(first: u8) -> (count: usize)
    ensures
        count == announced_continuations(first),
{
    if first < 0xc0 {
        0
    } else if first < 0xe0 {
        1
    } else if first < 0xf0 {
        2
    } else if first < 0xf8 {
        3
    } else if first < 0xfc {
        4
    } else if first < 0xfe {
        5
    } else {
        6
    }
}

/// The marker in the first byte of a coded number.
fn marker_of(continuations: usize) -> (marker: u8)
    requires
        continuations <= 6,
    ensures
        marker == lead_marker(continuations as nat),
{
    if continuations == 0 {
        0
    } else if continuations == 1 {
        0xc0
    } else if continuations == 2 {
        0xe0
    } else if continuations == 3 {
        0xf0
    } else if continuations == 4 {
        0xf8
    } else if continuations == 5 {
        0xfc
    } else {
        0xfe
    }
}

/// Reads a coded number, if its bytes are marked as such.
fn read_coded_number(digits: &[u8]) -> (number: Option<u64>)
    requires
        1 <= digits@.len() <= 7,
        digits@.len() == 1 + announced_continuations(digits@[0]),
    ensures
        match number {
            Some(found) => number_is_formed(digits@) && found == number_value(
                (digits@[0] - lead_marker((digits@.len() - 1) as nat)) as nat,
                digits@.skip(1),
            ),
            None => !number_is_formed(digits@),
        },
{
    let first: u8 = digits[0];
    if !(first < 0x80 || (0xc0 <= first && first < 0xff)) {
        return None;
    }
    let tail: usize = digits.len() - 1;
    let marker: u8 = marker_of(tail);
    let mut value: u64 = (first - marker) as u64;
    let ghost head = value as nat;
    let ghost rest = digits@.skip(1);
    let mut index: usize = 0;
    assert(rest.take(0) == Seq::<u8>::empty());
    while index < tail
        invariant
            index <= tail <= 6,
            tail == digits@.len() - 1,
            rest == digits@.skip(1),
            forall|i: int| 1 <= i <= index ==> 0x80 <= #[trigger] digits@[i] < 0xc0,
            value == number_value(head, rest.take(index as int)),
            index == 0 ==> value < 0x80,
            index == 1 ==> value < 0x2000,
            index == 2 ==> value < 0x8_0000,
            index == 3 ==> value < 0x200_0000,
            index == 4 ==> value < 0x8000_0000,
            index == 5 ==> value < 0x20_0000_0000,
            index == 6 ==> value < 0x800_0000_0000,
        decreases tail - index,
    {
        let byte: u8 = digits[index + 1];
        if byte < 0x80 || byte >= 0xc0 {
            return None;
        }
        proof {
            assert(rest.take(index + 1).drop_last() == rest.take(index as int));
            assert(rest.take(index + 1).last() == byte);
        }
        value = value * 64 + (byte - 0x80) as u64;
        index = index + 1;
    }
    assert(rest.take(tail as int) == rest);
    Some(value)
}

/// The block size that a code and its extra bytes stand for.
fn block_size_from(code: u8, extra: &[u8]) -> (block_size: u32)
    requires
        1 <= code <= 15,
        extra@.len() == block_size_extra(code),
    ensures
        block_size == block_size_of(code, extra@),
        1 <= block_size <= 65536,
{
    if code == 6 || code == 7 {
        let value: u64 = read_be(extra, 0, extra.len());
        proof {
            assert(extra@.subrange(0, extra@.len() as int) == extra@);
            lemma_be_value_bound(extra@);
            lemma_byte_ranges();
        }
        value as u32 + 1
    } else if code == 1 {
        192
    } else if code == 2 {
        576
    } else if code == 3 {
        1152
    } else if code == 4 {
        2304
    } else if code == 5 {
        4608
    } else if code == 8 {
        256
    } else if code == 9 {
        512
    } else if code == 10 {
        1024
    } else if code == 11 {
        2048
    } else if code == 12 {
        4096
    } else if code == 13 {
        8192
    } else if code == 14 {
        16384
    } else {
        32768
    }
}

/// The sample rate that a code and its extra bytes stand for.
fn sample_rate_from(code: u8, extra: &[u8]) -> (sample_rate: u32)
    requires
        1 <= code <= 14,
        extra@.len() == sample_rate_extra(code),
    ensures
        sample_rate == sample_rate_of(code, extra@),
{
    if code >= 12 {
        let value: u64 = read_be(extra, 0, extra.len());
        proof {
            assert(extra@.subrange(0, extra@.len() as int) == extra@);
            lemma_be_value_bound(extra@);
            lemma_byte_ranges();
        }
        if code == 12 {
            value as u32 * 1000
        } else if code == 13 {
            value as u32
        } else {
            value as u32 * 10
        }
    } else if code == 1 {
        88_200
    } else if code == 2 {
        176_400
    } else if code == 3 {
        192_000
    } else if code == 4 {
        8_000
    } else if code == 5 {
        16_000
    } else if code == 6 {
        22_050
    } else if code == 7 {
        24_000
    } else if code == 8 {
        32_000
    } else if code == 9 {
        44_100
    } else if code == 10 {
        48_000
    } else {
        96_000
    }
}

/// The channel assignment with a code.
fn assignment_from(code: u8) -> (assignment: ChannelAssignment)
    ensures
        assignment == assignment_of(code),
{
    if code == 0 {
        ChannelAssignment::IndependentMono
    } else if code == 1 {
        ChannelAssignment::IndependentStereo
    } else if code < 8 {
        assign_independent(code + 1)
    } else if code == 8 {
        ChannelAssignment::LeftSide
    } else if code == 9 {
        ChannelAssignment::SideRight
    } else {
        ChannelAssignment::MidSide
    }
}

/// The sample width with a code.
fn bit_depth_from(code: u8) -> (bits_per_sample: u8)
    ensures
        bits_per_sample == bit_depth_of(code),
        bits_per_sample <= 32,
{
    if code == 1 {
        8
    } else if code == 2 {
        12
    } else if code == 4 {
        16
    } else if code == 5 {
        20
    } else if code == 6 {
        24
    } else {
        32
    }
}

/// Reads the frame header at the front of bytes, with the number of its bytes.
pub fn read_frame_header(bytes: &[u8], format: StreamFormat) -> (read: Option<
    (FrameHeader, usize),
>)
    requires
        format.bits_per_sample <= 32,
    ensures
        match read_header(bytes@, format) {
            None => read is None,
            Some((header, end)) => read matches Some((found, length)) && {
                &&& found@ == header
                &&& length == end
                &&& 6 <= length <= bytes@.len()
                &&& 1 <= found.block_size <= 65536
                &&& found.bits_per_sample <= 32
            },
        },
{
    proof {
        reveal(read_header);
    }
    if bytes.len() < 6 {
        return None;
    }
    let head = slice_subrange(bytes, 0, 4);
    assert(head@ == bytes@.take(4));
    let codes = match read_header_codes(head) {
        None => return None,
        Some(codes) => codes,
    };
    let tail: usize = count_continuations(bytes[4]);
    let number_end: usize = 5 + tail;
    let size_extra: usize = if codes.block_size == 6 {
        1
    } else if codes.block_size == 7 {
        2
    } else {
        0
    };
    let rate_extra: usize = if codes.sample_rate == 12 {
        1
    } else if codes.sample_rate == 13 || codes.sample_rate == 14 {
        2
    } else {
        0
    };
    let size_end: usize = number_end + size_extra;
    let rate_end: usize = size_end + rate_extra;
    if bytes.len() <= rate_end {
        return None;
    }
    let digits = slice_subrange(bytes, 4, number_end);
    let number: u64 = match read_coded_number(digits) {
        None => return None,
        Some(number) => number,
    };
    assert(digits@.skip(1) == bytes@.subrange(5, number_end as int));
    let unchecked = slice_subrange(bytes, 0, rate_end);
    assert(unchecked@ == bytes@.take(rate_end as int));
    if bytes[rate_end] != crc8(unchecked) {
        return None;
    }
    let sample_rate: u32 = if codes.sample_rate == 0 {
        format.sample_rate
    } else {
        sample_rate_from(codes.sample_rate, slice_subrange(bytes, size_end, rate_end))
    };
    let bits_per_sample: u8 = if codes.bit_depth == 0 {
        format.bits_per_sample
    } else {
        bit_depth_from(codes.bit_depth)
    };
    let header = FrameHeader {
        block_size: block_size_from(
            codes.block_size,
            slice_subrange(bytes, number_end, size_end),
        ),
        sample_rate,
        assignment: assignment_from(codes.assignment),
        bits_per_sample,
        number,
        variable: codes.variable,
    };
    Some((header, rate_end + 1))
}

/// The signals of subframes can be held as samples.
pub open spec fn signals_fit(subframes: Seq<SubframeView>, block_size: nat) -> bool {
    forall|i: int|
        0 <= i < subframes.len() ==> narrow(
            #[trigger] subframe_signal(subframes[i], block_size),
        ) is Some
}

/// What the frame at the front of bytes holds: its header, its samples and the number of
/// its bytes.
pub open spec fn decoded_front(bytes: Seq<u8>, format: StreamFormat) -> Option<
    (HeaderView, Seq<i32>, int),
> {
    match read_front(bytes, format) {
        None => None,
        Some((header, subframes, end)) => match narrow(
            frame_signal(header.assignment, subframes, header.block_size),
        ) {
            Some(samples) => if signals_fit(subframes, header.block_size) {
                Some((header, samples, end))
            } else {
                None
            },
            None => None,
        },
    }
}

/// The samples of two signals, if samples can hold them.
fn interleave(assignment: ChannelAssignment, first: &[i32], second: &[i32]) -> (samples: Option<
    Vec<i32>,
>)
    requires
        first@.len() == second@.len(),
    ensures
        ({
            let signal = Seq::new(
                2 * first@.len(),
                |i: int|
                    {
                        let pair = stereo_pair(
                            assignment,
                            first@[i / 2] as int,
                            second@[i / 2] as int,
                        );
                        if i % 2 == 0 {
                            pair.0
                        } else {
                            pair.1
                        }
                    },
            );
            match narrow(signal) {
                Some(expected) => samples matches Some(found) && found@ == expected,
                None => samples is None,
            }
        }),
{
    let ghost signal = Seq::new(
        2 * first@.len(),
        |i: int|
            {
                let pair = stereo_pair(assignment, first@[i / 2] as int, second@[i / 2] as int);
                if i % 2 == 0 {
                    pair.0
                } else {
                    pair.1
                }
            },
    );
    let mut samples: Vec<i32> = Vec::new();
    let mut index: usize = 0;
    while index < first.len()
        invariant
            index <= first@.len(),
            first@.len() == second@.len(),
            signal == Seq::new(
                2 * first@.len(),
                |i: int|
                    {
                        let pair = stereo_pair(
                            assignment,
                            first@[i / 2] as int,
                            second@[i / 2] as int,
                        );
                        if i % 2 == 0 {
                            pair.0
                        } else {
                            pair.1
                        }
                    },
            ),
            samples@.len() == 2 * index,
            forall|i: int|
                0 <= i < 2 * index ==> is_sample(#[trigger] signal[i]) && samples@[i] == signal[i],
        decreases first.len() - index,
    {
        let (left, right) = restore_pair(assignment, first[index], second[index]);
        proof {
            assert(signal[2 * index] == left);
            assert(signal[2 * index + 1] == right);
        }
        if left < -0x8000_0000 || left > 0x7fff_ffff {
            assert(!is_sample(signal[2 * index]));
            return None;
        }
        if right < -0x8000_0000 || right > 0x7fff_ffff {
            assert(!is_sample(signal[2 * index + 1]));
            return None;
        }
        samples.push(left as i32);
        samples.push(right as i32);
        index = index + 1;
    }
    assert(samples@ == signal.map_values(|value: int| value as i32));
    Some(samples)
}

/// Where the first channels cannot be read, more cannot be read either.
proof fn lemma_channels_stop(bits: Seq<bool>, header: HeaderView, count: nat, more: nat)
    requires
        count <= more,
        read_channels(bits, header, count) is None,
    ensures
        read_channels(bits, header, more) is None,
    decreases more,
{
    if count < more {
        lemma_channels_stop(bits, header, count, (more - 1) as nat);
    }
}

/// Reads the subframes of a frame.
fn read_subframes(behind: &[u8], header: FrameHeader) -> (read: Option<
    (Vec<AnalyzedSubframe>, usize),
>)
    requires
        8 * behind@.len() <= usize::MAX,
        header.bits_per_sample <= 32,
    ensures
        match read_body(byte_bits(behind@), header@) {
            None => read is None,
            Some((subframes, rest)) => read matches Some((found, place)) && {
                &&& place <= 8 * behind@.len()
                &&& rest.len() == 8 * behind@.len() - place
                &&& subframes == found@.map_values(|subframe: AnalyzedSubframe| subframe@)
                &&& found@.len() == channel_count(header.assignment)
                &&& forall|i: int|
                    0 <= i < found@.len() ==> is_restorable(
                        #[trigger] found@[i]@,
                        header.block_size as nat,
                    )
            },
        },
{
    let ghost bits = byte_bits(behind@);
    proof {
        lemma_byte_bits_len(behind@);
        assert(bits_at(behind@, 0) == byte_bits(behind@));
    }
    let widths = channel_bits_per_sample(header.assignment, header.bits_per_sample);
    let block_size: usize = header.block_size as usize;
    let count: usize = count_channels(header.assignment) as usize;
    let mut found: Vec<AnalyzedSubframe> = Vec::new();
    let mut place: usize = 0;
    assert(found@.map_values(|subframe: AnalyzedSubframe| subframe@) == Seq::<SubframeView>::empty());
    while found.len() < count
        invariant
            8 * behind@.len() <= usize::MAX,
            bits == byte_bits(behind@),
            bits.len() == 8 * behind@.len(),
            header.bits_per_sample <= 32,
            block_size == header.block_size,
            count == channel_count(header.assignment),
            found@.len() <= count,
            (widths.0 as nat, widths.1 as nat) == channel_widths(
                header.assignment,
                header.bits_per_sample as nat,
            ),
            place <= 8 * behind@.len(),
            read_channels(bits, header@, found@.len()) == Some(
                (
                    found@.map_values(|subframe: AnalyzedSubframe| subframe@),
                    bits_at(behind@, place as nat),
                ),
            ),
            forall|i: int|
                0 <= i < found@.len() ==> is_restorable(
                    #[trigger] found@[i]@,
                    header.block_size as nat,
                ),
        decreases count - found.len(),
    {
        let width: u8 = if found.len() == 0 {
            widths.0
        } else {
            widths.1
        };
        let ghost earlier = found@;
        proof {
            lemma_read_is_restorable(
                bits_at(behind@, place as nat),
                width as nat,
                header.block_size as nat,
            );
            assert(width == width_at((widths.0 as nat, widths.1 as nat), earlier.len() as int));
        }
        match read_analyzed_subframe(behind, place, width as u32, block_size) {
            None => {
                proof {
                    lemma_channels_stop(bits, header@, earlier.len() + 1, count as nat);
                }
                return None;
            },
            Some((subframe, next)) => {
                found.push(subframe);
                place = next;
                assert(found@.map_values(|subframe: AnalyzedSubframe| subframe@)
                    == earlier.map_values(|subframe: AnalyzedSubframe| subframe@).push(subframe@));
            },
        }
    }
    Some((found, place))
}

/// A check at a place agrees with the bytes in front of it.
fn check_agrees(bytes: &[u8], end: usize) -> (agrees: bool)
    requires
        end + 2 <= bytes@.len(),
    ensures
        agrees == (bytes@.subrange(end as int, end + 2) == be_bytes(
            crc16_of(bytes@.take(end as int)) as nat,
            2,
        )),
{
    let front = slice_subrange(bytes, 0, end);
    assert(front@ == bytes@.take(end as int));
    let crc: u16 = crc16(front);
    let mut check: Vec<u8> = Vec::new();
    push_be_bytes(&mut check, crc as u64, 2);
    assert(Seq::<u8>::empty() + be_bytes(crc as nat, 2) == be_bytes(crc as nat, 2));
    let length: usize = bytes.len();
    assert(end + 2 <= length);
    bytes_equal(slice_subrange(bytes, end, end + 2), check.as_slice())
}

/// The signals of subframes, if samples can hold them.
fn restore_signals(subframes: &Vec<AnalyzedSubframe>, block_size: usize) -> (signals: Option<
    Vec<Vec<i32>>,
>)
    requires
        forall|i: int|
            0 <= i < subframes@.len() ==> is_restorable(
                #[trigger] subframes@[i]@,
                block_size as nat,
            ),
    ensures
        ({
            let views = subframes@.map_values(|subframe: AnalyzedSubframe| subframe@);
            match signals {
                None => !signals_fit(views, block_size as nat),
                Some(found) => {
                    &&& signals_fit(views, block_size as nat)
                    &&& found@.len() == views.len()
                    &&& forall|i: int|
                        0 <= i < views.len() ==> {
                            &&& ints(#[trigger] found@[i]@) == subframe_signal(
                                views[i],
                                block_size as nat,
                            )
                            &&& found@[i]@.len() == block_size
                        }
                },
            }
        }),
{
    let ghost views = subframes@.map_values(|subframe: AnalyzedSubframe| subframe@);
    let mut signals: Vec<Vec<i32>> = Vec::new();
    while signals.len() < subframes.len()
        invariant
            signals@.len() <= subframes@.len(),
            views == subframes@.map_values(|subframe: AnalyzedSubframe| subframe@),
            forall|i: int|
                0 <= i < subframes@.len() ==> is_restorable(
                    #[trigger] subframes@[i]@,
                    block_size as nat,
                ),
            forall|i: int|
                0 <= i < signals@.len() ==> {
                    &&& ints(#[trigger] signals@[i]@) == subframe_signal(
                        views[i],
                        block_size as nat,
                    )
                    &&& signals@[i]@.len() == block_size
                    &&& narrow(subframe_signal(views[i], block_size as nat)) is Some
                },
        decreases subframes.len() - signals.len(),
    {
        let index: usize = signals.len();
        let ghost signal = subframe_signal(views[index as int], block_size as nat);
        assert(is_restorable(subframes@[index as int]@, block_size as nat));
        match restore_signal(&subframes[index], block_size) {
            None => {
                assert(narrow(signal) is None);
                return None;
            },
            Some(found) => {
                proof {
                    lemma_signal_len(views[index as int], block_size as nat);
                    assert forall|i: int| 0 <= i < block_size implies found@[i] == signal[i] by {
                        assert(is_sample(signal[i]));
                    }
                    assert(ints(found@) == signal);
                }
                signals.push(found);
            },
        }
    }
    assert forall|i: int| 0 <= i < views.len() implies narrow(
        #[trigger] subframe_signal(views[i], block_size as nat),
    ) is Some by {
        assert(ints(signals@[i]@) == subframe_signal(views[i], block_size as nat));
    }
    Some(signals)
}

/// Interleaves the signals of channels that are stored as they are.
fn interleave_independent(signals: &Vec<Vec<i32>>, block_size: usize) -> (samples: Vec<i32>)
    requires
        1 <= signals@.len() <= MAX_CHANNELS,
        block_size <= 65536,
        forall|i: int| 0 <= i < signals@.len() ==> (#[trigger] signals@[i])@.len() == block_size,
    ensures
        samples@.len() == signals@.len() * block_size,
        forall|i: int|
            0 <= i < samples@.len() ==> #[trigger] samples@[i] == signals@[i
                % signals@.len() as int]@[i / signals@.len() as int],
{
    let mut samples: Vec<i32> = Vec::new();
    let ghost count = signals@.len() as int;
    let mut place: usize = 0;
    while place < block_size
        invariant
            1 <= count <= MAX_CHANNELS,
            count == signals@.len(),
            place <= block_size,
            forall|i: int| 0 <= i < signals@.len() ==> (#[trigger] signals@[i])@.len() == block_size,
            samples@.len() == count * place,
            forall|i: int|
                0 <= i < samples@.len() ==> #[trigger] samples@[i] == signals@[i % count]@[i
                    / count],
        decreases block_size - place,
    {
        let mut channel: usize = 0;
        while channel < signals.len()
            invariant
                1 <= count <= MAX_CHANNELS,
                count == signals@.len(),
                place < block_size,
                channel <= count,
                forall|i: int|
                    0 <= i < signals@.len() ==> (#[trigger] signals@[i])@.len() == block_size,
                samples@.len() == count * place + channel,
                forall|i: int|
                    0 <= i < samples@.len() ==> #[trigger] samples@[i] == signals@[i % count]@[i
                        / count],
            decreases count - channel,
        {
            proof {
                assert(samples@.len() == place * count + channel) by (nonlinear_arith)
                    requires
                        samples@.len() == count * place + channel,
                ;
                lemma_fundamental_div_mod_converse(
                    samples@.len() as int,
                    count,
                    place as int,
                    channel as int,
                );
            }
            assert(signals@[channel as int]@.len() == block_size);
            samples.push(signals[channel][place]);
            channel = channel + 1;
        }
        assert(count * (place + 1) == count * place + count) by (nonlinear_arith);
        place = place + 1;
    }
    samples
}

/// The samples that subframes stand for, if samples can hold them.
fn restore_frame(header: FrameHeader, subframes: &Vec<AnalyzedSubframe>) -> (samples: Option<
    Vec<i32>,
>)
    requires
        1 <= subframes@.len() <= MAX_CHANNELS,
        header.block_size <= 65536,
        forall|i: int|
            0 <= i < subframes@.len() ==> is_restorable(
                #[trigger] subframes@[i]@,
                header.block_size as nat,
            ),
    ensures
        ({
            let block_size = header.block_size as nat;
            let views = subframes@.map_values(|subframe: AnalyzedSubframe| subframe@);
            match narrow(frame_signal(header.assignment, views, block_size)) {
                Some(expected) => if signals_fit(views, block_size) {
                    samples matches Some(found) && found@ == expected
                } else {
                    samples is None
                },
                None => samples is None,
            }
        }),
{
    let block_size: usize = header.block_size as usize;
    let ghost views = subframes@.map_values(|subframe: AnalyzedSubframe| subframe@);
    let ghost signal = frame_signal(header.assignment, views, block_size as nat);
    let signals = match restore_signals(subframes, block_size) {
        None => return None,
        Some(signals) => signals,
    };
    if signals.len() == 2 {
        proof {
            let left = signals@[0]@;
            let right = signals@[1]@;
            let stored = Seq::new(
                2 * left.len(),
                |i: int|
                    {
                        let pair = stereo_pair(
                            header.assignment,
                            left[i / 2] as int,
                            right[i / 2] as int,
                        );
                        if i % 2 == 0 {
                            pair.0
                        } else {
                            pair.1
                        }
                    },
            );
            assert forall|i: int| 0 <= i < block_size implies left[i] == #[trigger] ints(left)[i]
                && right[i] == ints(right)[i] by {}
            assert(stored == signal);
        }
        interleave(header.assignment, signals[0].as_slice(), signals[1].as_slice())
    } else {
        let samples = interleave_independent(&signals, block_size);
        proof {
            let count = views.len() as int;
            assert(samples@.len() == signal.len());
            assert forall|i: int| 0 <= i < signal.len() implies #[trigger] signal[i] == samples@[i]
                && is_sample(signal[i]) by {
                lemma_fundamental_div_mod(i, count);
                let channel = i % count;
                let place = i / count;
                assert(0 <= place < block_size) by (nonlinear_arith)
                    requires
                        i == count * place + channel,
                        0 <= channel < count,
                        0 <= i < count * block_size,
                ;
                assert(ints(signals@[channel]@)[place] == subframe_signal(
                    views[channel],
                    block_size as nat,
                )[place]);
            }
            assert(signal == ints(samples@));
            lemma_narrow_samples(samples@);
        }
        Some(samples)
    }
}

/// Decodes the frame at the front of bytes: its header, its samples and the number of its
/// bytes.
pub fn decode_frame(bytes: &[u8], format: StreamFormat) -> (decoded: Option<
    (FrameHeader, Vec<i32>, usize),
>)
    requires
        8 * bytes@.len() <= usize::MAX,
        format.bits_per_sample <= 32,
    ensures
        match decoded_front(bytes@, format) {
            None => decoded is None,
            Some((header, samples, end)) => decoded matches Some((found, signal, length)) && {
                &&& found@ == header
                &&& signal@ == samples
                &&& length == end
                &&& 8 <= length <= bytes@.len()
            },
        },
{
    proof {
        reveal(read_front);
    }
    let (header, start) = match read_frame_header(bytes, format) {
        None => return None,
        Some(found) => found,
    };
    let behind = slice_subrange(bytes, start, bytes.len());
    assert(behind@ == bytes@.skip(start as int));
    proof {
        lemma_byte_bits_len(behind@);
    }
    let (subframes, place) = match read_subframes(behind, header) {
        None => return None,
        Some(found) => found,
    };
    let end: usize = start + (place / 8 + if place % 8 == 0 {
        0
    } else {
        1
    });
    assert(end == start + (place + 7) / 8);
    if bytes.len() < 2 || end > bytes.len() - 2 {
        return None;
    }
    if !check_agrees(bytes, end) {
        return None;
    }
    match restore_frame(header, &subframes) {
        None => None,
        Some(samples) => Some((header, samples, end + 2)),
    }
}

} // verus!
