//! Reading whole frames back, as mathematics.

use vstd::prelude::*;

use crate::bits::{bits_value, byte_bits, lemma_byte_bits_concat, lemma_unsigned_bits_len, padding_bits, unsigned_bits};
use crate::bytes::{be_bytes, packed};
use crate::crc::{crc16_of, crc8_of};
use crate::frame::{analysis_of, body_bits, body_is_writable, difference_fits, encoded_frame, frame_bytes, lemma_whole_frames, predictors_for, signals_of, AnalysisView};
use crate::frame_header::{announced_continuations, assignment_code, bit_depth_code, block_size_field, block_size_of, channel_count, channel_widths, coded_number, coded_value, continuation_count, frame_header, header_field_bits, is_variable, law_block_size_reads_back, law_coded_number_reads_back, law_sample_rate_reads_back, lead_marker, number_head, number_tail, number_value, sample_rate_field, sample_rate_of, unchecked_header, width_at, ChannelAssignment, FrameHeaderNumber, FLAC_SYNC_CODE};
use crate::level::LevelProfile;
use crate::lossless::{frame_samples, law_frame_is_lossless, subframe_signal};
use crate::prediction::ints;
use crate::reading::{law_subframe_reads_back, lemma_read_unsigned, read_subframe, read_unsigned, reads_back, Reading};
use crate::restoring::narrow;
use crate::subframe::{predictors_are_valid, subframe_bits, subframe_is_writable, LpcPredictors, SubframeView};

verus! {

/// The fields of a frame header.
pub struct HeaderView {
    pub block_size: nat,
    pub sample_rate: nat,
    pub assignment: ChannelAssignment,
    pub bits_per_sample: nat,
    pub number: int,
    pub variable: bool,
}

/// The codes in the first four bytes of a header.
#[derive(Debug, Clone, Copy, PartialEq, Eq, Structural)]
pub struct HeaderCodes {
    pub block_size: u8,
    pub sample_rate: u8,
    pub assignment: u8,
    pub bit_depth: u8,
    pub variable: bool,
}

/// The channel assignment with a code.
pub open spec fn assignment_of(code: u8) -> ChannelAssignment {
    match code {
        0 => ChannelAssignment::IndependentMono,
        1 => ChannelAssignment::IndependentStereo,
        2 => ChannelAssignment::IndependentThree,
        3 => ChannelAssignment::IndependentFour,
        4 => ChannelAssignment::IndependentFive,
        5 => ChannelAssignment::IndependentSix,
        6 => ChannelAssignment::IndependentSeven,
        7 => ChannelAssignment::IndependentEight,
        8 => ChannelAssignment::LeftSide,
        9 => ChannelAssignment::SideRight,
        _ => ChannelAssignment::MidSide,
    }
}

/// The sample width with a code.
pub open spec fn bit_depth_of(code: u8) -> nat {
    match code {
        1 => 8,
        2 => 12,
        4 => 16,
        5 => 20,
        6 => 24,
        _ => 32,
    }
}

/// What a stream's own description says of its frames. A frame may leave its rate or its
/// width to it, with the code zero.
#[derive(Debug, Clone, Copy, PartialEq, Eq, Structural)]
pub struct StreamFormat {
    pub sample_rate: u32,
    pub bits_per_sample: u8,
}

/// Codes that stand for something.
pub open spec fn codes_are_known(codes: HeaderCodes) -> bool {
    &&& 1 <= codes.block_size <= 15
    &&& codes.sample_rate <= 14
    &&& codes.assignment <= 10
    &&& codes.bit_depth <= 7
    &&& codes.bit_depth != 3
}

/// The rate of a frame in a stream.
pub open spec fn header_rate(code: u8, extra: Seq<u8>, format: StreamFormat) -> nat {
    if code == 0 {
        format.sample_rate as nat
    } else {
        sample_rate_of(code, extra)
    }
}

/// The width of a frame in a stream.
pub open spec fn header_width(code: u8, format: StreamFormat) -> nat {
    if code == 0 {
        format.bits_per_sample as nat
    } else {
        bit_depth_of(code)
    }
}

/// Reads the codes after the sync code and a reserved bit.
pub open spec fn read_codes(bits: Seq<bool>) -> Option<HeaderCodes> {
    match read_unsigned(bits, 14) {
        None => None,
        Some((sync, rest)) => match read_unsigned(rest, 2) {
            None => None,
            Some((blocking, rest)) => match read_unsigned(rest, 4) {
                None => None,
                Some((block_size, rest)) => match read_unsigned(rest, 4) {
                    None => None,
                    Some((sample_rate, rest)) => match read_unsigned(rest, 4) {
                        None => None,
                        Some((assignment, rest)) => match read_unsigned(rest, 3) {
                            None => None,
                            Some((bit_depth, rest)) => match read_unsigned(rest, 1) {
                                None => None,
                                Some((reserved, _)) => {
                                    let codes = HeaderCodes {
                                        block_size: block_size as u8,
                                        sample_rate: sample_rate as u8,
                                        assignment: assignment as u8,
                                        bit_depth: bit_depth as u8,
                                        variable: blocking == 1,
                                    };
                                    if sync == FLAC_SYNC_CODE && blocking <= 1 && reserved == 0
                                        && codes_are_known(codes) {
                                        Some(codes)
                                    } else {
                                        None
                                    }
                                },
                            },
                        },
                    },
                },
            },
        },
    }
}

/// The number of bytes that follow the coded number for a block size code.
pub open spec fn block_size_extra(code: u8) -> int {
    if code == 6 {
        1
    } else if code == 7 {
        2
    } else {
        0
    }
}

/// The number of bytes that follow the coded number for a sample rate code.
pub open spec fn sample_rate_extra(code: u8) -> int {
    if code == 12 {
        1
    } else if code == 13 || code == 14 {
        2
    } else {
        0
    }
}

/// The bytes of a coded number are marked as such.
pub open spec fn number_is_formed(bytes: Seq<u8>) -> bool {
    &&& bytes[0] < 0x80 || 0xc0 <= bytes[0] < 0xff
    &&& forall|i: int| 1 <= i < bytes.len() ==> 0x80 <= #[trigger] bytes[i] < 0xc0
}

/// Reads a frame header: its fields and the number of its bytes. The check at its
/// end has to agree.
#[verifier::opaque]
pub open spec fn read_header(bytes: Seq<u8>, format: StreamFormat) -> Option<(HeaderView, int)> {
    if bytes.len() < 6 {
        None
    } else {
        match read_codes(byte_bits(bytes.take(4))) {
            None => None,
            Some(codes) => {
                let tail = announced_continuations(bytes[4]);
                let number_end = 5 + tail;
                let size_end = number_end + block_size_extra(codes.block_size);
                let rate_end = size_end + sample_rate_extra(codes.sample_rate);
                if bytes.len() <= rate_end || !number_is_formed(
                    bytes.subrange(4, number_end as int),
                ) || bytes[rate_end] != crc8_of(bytes.take(rate_end)) {
                    None
                } else {
                    Some(
                        (
                            HeaderView {
                                block_size: block_size_of(
                                    codes.block_size,
                                    bytes.subrange(number_end as int, size_end),
                                ),
                                sample_rate: header_rate(
                                    codes.sample_rate,
                                    bytes.subrange(size_end, rate_end),
                                    format,
                                ),
                                assignment: assignment_of(codes.assignment),
                                bits_per_sample: header_width(codes.bit_depth, format),
                                variable: codes.variable,
                                number: number_value(
                                    (bytes[4] - lead_marker(tail)) as nat,
                                    bytes.subrange(5, number_end as int),
                                ),
                            },
                            rate_end + 1,
                        ),
                    )
                }
            },
        }
    }
}

/// Reads the subframes of the first channels of a frame.
pub open spec fn read_channels(bits: Seq<bool>, header: HeaderView, count: nat) -> Reading<
    Seq<SubframeView>,
>
    decreases count,
{
    if count == 0 {
        Some((Seq::empty(), bits))
    } else {
        match read_channels(bits, header, (count - 1) as nat) {
            None => None,
            Some((earlier, rest)) => match read_subframe(
                rest,
                width_at(
                    channel_widths(header.assignment, header.bits_per_sample),
                    count - 1,
                ),
                header.block_size,
            ) {
                None => None,
                Some((subframe, rest)) => Some((earlier.push(subframe), rest)),
            },
        }
    }
}

/// Reads the subframes of a frame.
pub open spec fn read_body(bits: Seq<bool>, header: HeaderView) -> Reading<Seq<SubframeView>> {
    read_channels(bits, header, channel_count(header.assignment))
}

/// Reads the frame at the front of bytes: its header, its subframes and the number of
/// its bytes. The check at its end has to agree.
#[verifier::opaque]
pub open spec fn read_front(bytes: Seq<u8>, format: StreamFormat) -> Option<
    (HeaderView, Seq<SubframeView>, int),
> {
    match read_header(bytes, format) {
        None => None,
        Some((header, start)) => {
            let bits = byte_bits(bytes.skip(start));
            match read_body(bits, header) {
                None => None,
                Some((subframes, rest)) => {
                    let end = start + (bits.len() - rest.len() + 7) / 8;
                    if end + 2 > bytes.len() || bytes.subrange(end, end + 2) != be_bytes(
                        crc16_of(bytes.take(end)) as nat,
                        2,
                    ) {
                        None
                    } else {
                        Some((header, subframes, end + 2))
                    }
                },
            }
        },
    }
}

/// Reads bytes that are a frame and nothing else. There is no stream that a frame alone
/// could leave anything to.
pub open spec fn read_frame(bytes: Seq<u8>) -> Option<(HeaderView, Seq<SubframeView>)> {
    match read_front(bytes, (StreamFormat { sample_rate: 0, bits_per_sample: 0 })) {
        None => None,
        Some((header, subframes, end)) => if end == bytes.len() {
            Some((header, subframes))
        } else {
            None
        },
    }
}

proof fn lemma_bits_of_value(bits: Seq<bool>)
    ensures
        unsigned_bits(bits_value(bits) as int, bits.len()) == bits,
    decreases bits.len(),
{
    if bits.len() > 0 {
        lemma_bits_of_value(bits.drop_last());
        let value = bits_value(bits);
        let earlier = bits_value(bits.drop_last());
        assert(value / 2 == earlier);
        assert((value % 2 == 1) == bits.last());
        assert(unsigned_bits(value as int, bits.len()) == bits.drop_last().push(bits.last()));
        assert(bits.drop_last().push(bits.last()) == bits);
    }
}

proof fn lemma_value_bound(bits: Seq<bool>)
    requires
        bits.len() == 8,
    ensures
        bits_value(bits) < 256,
{
    reveal_with_fuel(bits_value, 9);
}

/// Whole bytes hold the bits that were packed into them.
pub proof fn lemma_bits_of_packed(bits: Seq<bool>)
    requires
        bits.len() % 8 == 0,
    ensures
        byte_bits(packed(bits)) == bits,
    decreases bits.len(),
{
    let bytes = packed(bits);
    if bits.len() == 0 {
        assert(bytes.len() == 0);
        assert(bits == Seq::<bool>::empty());
    } else {
        let earlier = bits.take(bits.len() - 8);
        let last = bits.skip(bits.len() - 8);
        lemma_bits_of_packed(earlier);
        assert forall|i: int| 0 <= i < bytes.len() - 1 implies bytes[i] == packed(earlier)[i] by {
            assert(bits.subrange(8 * i, 8 * i + 8) == earlier.subrange(8 * i, 8 * i + 8));
        }
        assert(bytes.drop_last() == packed(earlier));
        assert(bits.subrange(8 * (bytes.len() - 1), 8 * (bytes.len() - 1) + 8) == last);
        lemma_bits_of_value(last);
        lemma_value_bound(last);
        assert(bytes.last() == bits_value(last));
        assert(earlier + last == bits);
    }
}

proof fn lemma_read_codes(
    size_code: u8,
    rate_code: u8,
    assignment: ChannelAssignment,
    depth_code: u8,
    variable: bool,
)
    requires
        1 <= size_code <= 15,
        1 <= rate_code <= 14,
        1 <= depth_code <= 7,
        depth_code != 3,
    ensures
        header_field_bits(size_code, rate_code, assignment, depth_code, variable).len() == 32,
        read_codes(header_field_bits(size_code, rate_code, assignment, depth_code, variable)) == Some(
            HeaderCodes {
                block_size: size_code,
                sample_rate: rate_code,
                assignment: assignment_code(assignment),
                bit_depth: depth_code,
                variable,
            },
        ),
{
    vstd::arithmetic::power2::lemma2_to64();
    let sync = unsigned_bits(FLAC_SYNC_CODE as int, 14);
    let blocking: int = if variable {
        1
    } else {
        0
    };
    let reserved = unsigned_bits(blocking, 2);
    let size = unsigned_bits(size_code as int, 4);
    let rate = unsigned_bits(rate_code as int, 4);
    let channels = unsigned_bits(assignment_code(assignment) as int, 4);
    let depth = unsigned_bits(depth_code as int, 3);
    let last = unsigned_bits(0, 1);
    lemma_unsigned_bits_len(FLAC_SYNC_CODE as int, 14);
    lemma_unsigned_bits_len(size_code as int, 4);
    lemma_unsigned_bits_len(rate_code as int, 4);
    lemma_unsigned_bits_len(assignment_code(assignment) as int, 4);
    lemma_unsigned_bits_len(depth_code as int, 3);
    reveal_with_fuel(unsigned_bits, 3);
    assert(reserved == seq![false, variable]);
    assert(last == seq![false]);
    crate::reading::lemma_regroup(sync, reserved, size, rate, channels, depth, last);
    lemma_read_unsigned(
        FLAC_SYNC_CODE as int,
        14,
        reserved + (size + (rate + (channels + (depth + last)))),
    );
    lemma_read_unsigned(blocking, 2, size + (rate + (channels + (depth + last))));
    lemma_read_unsigned(size_code as int, 4, rate + (channels + (depth + last)));
    lemma_read_unsigned(rate_code as int, 4, channels + (depth + last));
    lemma_read_unsigned(assignment_code(assignment) as int, 4, depth + last);
    lemma_read_unsigned(depth_code as int, 3, last);
    assert(last + Seq::<bool>::empty() == last);
    lemma_read_unsigned(0, 1, Seq::empty());
}

proof fn lemma_tail_is_marked(value: nat, count: nat)
    ensures
        number_tail(value, count).len() == count,
        forall|i: int| 0 <= i < count ==> 0x80 <= #[trigger] number_tail(value, count)[i] < 0xc0,
    decreases count,
{
    if count > 0 {
        lemma_tail_is_marked(value / 64, (count - 1) as nat);
    }
}

proof fn lemma_number_is_formed(value: nat)
    requires
        value < 0x10_0000_0000,
    ensures
        number_is_formed(coded_number(value)),
{
    lemma_tail_is_marked(value, continuation_count(value));
    reveal_with_fuel(number_head, 7);
}

/// A frame header reads back, whatever follows it and in whatever stream it stands.
#[verifier::rlimit(60)]
#[verifier::spinoff_prover]
pub proof fn law_frame_header_reads_back(
    block_size: u16,
    sample_rate: u32,
    assignment: ChannelAssignment,
    bits_per_sample: u8,
    number: FrameHeaderNumber,
    rest: Seq<u8>,
    format: StreamFormat,
)
    requires
        block_size >= 1,
    ensures
        frame_header(
            block_size,
            sample_rate,
            assignment,
            bits_per_sample,
            number,
        ) matches Ok(header) ==> read_header(header + rest, format) == Some(
            (
                HeaderView {
                    block_size: block_size as nat,
                    sample_rate: sample_rate as nat,
                    assignment,
                    bits_per_sample: bits_per_sample as nat,
                    number: coded_value(number) as int,
                    variable: is_variable(number),
                },
                header.len() as int,
            ),
        ),
{
    reveal(read_header);
    reveal(frame_header);
    if let Ok(header) = frame_header(
        block_size,
        sample_rate,
        assignment,
        bits_per_sample,
        number,
    ) {
        let size = block_size_field(block_size);
        let rate = sample_rate_field(sample_rate).unwrap();
        let depth = bit_depth_code(bits_per_sample).unwrap();
        let digits = coded_number(coded_value(number) as nat);
        let fields = packed(
            header_field_bits(size.0, rate.0, assignment, depth, is_variable(number)),
        );
        let unchecked = unchecked_header(
            block_size,
            sample_rate,
            assignment,
            bits_per_sample,
            number,
        );
        lemma_read_codes(size.0, rate.0, assignment, depth, is_variable(number));
        lemma_bits_of_packed(
            header_field_bits(size.0, rate.0, assignment, depth, is_variable(number)),
        );
        law_coded_number_reads_back(coded_value(number) as nat);
        law_block_size_reads_back(block_size);
        law_sample_rate_reads_back(sample_rate);
        reveal_with_fuel(be_bytes, 3);
        let bytes = header + rest;
        assert(unchecked == fields + digits + size.1 + rate.1);
        assert(bytes.take(4) == fields);
        assert(bytes[4] == digits[0]);
        let tail = announced_continuations(bytes[4]);
        let number_end = 5 + tail as int;
        let size_end = number_end + block_size_extra(size.0);
        let rate_end = size_end + sample_rate_extra(rate.0);
        assert(size.1.len() == block_size_extra(size.0));
        assert(rate.1.len() == sample_rate_extra(rate.0));
        assert(bytes.subrange(5, number_end) == digits.skip(1));
        assert(bytes.subrange(4, number_end) == digits);
        lemma_number_is_formed(coded_value(number) as nat);
        assert(bytes.subrange(number_end, size_end) == size.1);
        assert(bytes.subrange(size_end, rate_end) == rate.1);
        assert(assignment_of(assignment_code(assignment)) == assignment);
        assert(bytes.take(rate_end) == unchecked);
        assert(bytes[rate_end] == crc8_of(unchecked));
    }
}

/// An encoded frame reads back, whatever follows it and in whatever stream: the bytes hold the header that was
/// asked for and subframes that stand for the samples.
pub proof fn law_encoded_frame_reads_back(
    interleaved: Seq<i32>,
    channels: u8,
    bits_per_sample: u8,
    sample_rate: u32,
    number: FrameHeaderNumber,
    profile: LevelProfile,
    predictors: Seq<LpcPredictors>,
    rest: Seq<u8>,
    format: StreamFormat,
)
    requires
        interleaved.len() > 0,
        channels > 0,
        channels == 2 && profile.use_mid_side_stereo ==> difference_fits(interleaved),
        forall|i: int| 0 <= i < predictors.len() ==> predictors_are_valid(#[trigger] predictors[i]@),
    ensures
        encoded_frame(
            interleaved,
            channels,
            bits_per_sample,
            sample_rate,
            number,
            profile,
            predictors,
        ) matches Ok(bytes) ==> ({
            &&& read_front(bytes + rest, format) matches Some((header, subframes, end))
            &&& end == bytes.len()
            &&& channel_count(header.assignment) == channels
            &&& header.sample_rate == sample_rate
            &&& header.bits_per_sample == bits_per_sample
            &&& header.number == coded_value(number)
            &&& header.variable == is_variable(number)
            &&& header.block_size * channels == interleaved.len()
            &&& frame_samples(
                AnalysisView {
                    block_size: header.block_size as u16,
                    channel_assignment: header.assignment,
                    subframes,
                },
            ) == ints(interleaved)
            &&& header.block_size <= u16::MAX
            &&& subframes.len() == channels
            &&& forall|i: int|
                0 <= i < subframes.len() ==> narrow(
                    #[trigger] subframe_signal(subframes[i], header.block_size),
                ) is Some
        }),
{
    if let Ok(bytes) = encoded_frame(
        interleaved,
        channels,
        bits_per_sample,
        sample_rate,
        number,
        profile,
        predictors,
    ) {
        let analysis = analysis_of(
            interleaved,
            channels,
            bits_per_sample,
            sample_rate,
            profile,
            predictors,
        )->Ok_0;
        lemma_analysis_reads_back(
            interleaved,
            channels,
            bits_per_sample,
            sample_rate,
            profile,
            predictors,
        );
        law_frame_is_lossless(
            interleaved,
            channels,
            bits_per_sample,
            sample_rate,
            profile,
            predictors,
        );
        lemma_serialized_reads_back(analysis, bits_per_sample, sample_rate, number, rest, format);
    }
}

proof fn lemma_serialized_reads_back(
    analysis: AnalysisView,
    bits_per_sample: u8,
    sample_rate: u32,
    number: FrameHeaderNumber,
    rest: Seq<u8>,
    format: StreamFormat,
)
    requires
        analysis.block_size >= 1,
        analysis.subframes.len() == channel_count(analysis.channel_assignment),
        ({
            let widths = channel_widths(analysis.channel_assignment, bits_per_sample as nat);
            body_reads_back(analysis.subframes, widths, analysis.block_size as nat)
        }),
    ensures
        frame_bytes(analysis, bits_per_sample, sample_rate, number) matches Ok(bytes)
            ==> read_front(bytes + rest, format) == Some(
            (
                HeaderView {
                    block_size: analysis.block_size as nat,
                    sample_rate: sample_rate as nat,
                    assignment: analysis.channel_assignment,
                    bits_per_sample: bits_per_sample as nat,
                    number: coded_value(number) as int,
                    variable: is_variable(number),
                },
                analysis.subframes,
                bytes.len() as int,
            ),
        ),
{
    let built = frame_header(
        analysis.block_size,
        sample_rate,
        analysis.channel_assignment,
        bits_per_sample,
        number,
    );
    if built is Ok {
        let header = built->Ok_0;
        let widths = channel_widths(analysis.channel_assignment, bits_per_sample as nat);
        let body = body_bits(analysis.subframes, widths);
        let view = HeaderView {
            block_size: analysis.block_size as nat,
            sample_rate: sample_rate as nat,
            assignment: analysis.channel_assignment,
            bits_per_sample: bits_per_sample as nat,
            number: coded_value(number) as int,
            variable: is_variable(number),
        };
        assert forall|more: Seq<bool>| #[trigger] read_body(body + more, view) == Some(
            (analysis.subframes, more),
        ) by {
            lemma_read_body(analysis.subframes, view, more);
        }
        assert forall|rest: Seq<u8>| #[trigger] read_header(header + rest, format) == Some(
            (view, header.len() as int),
        ) by {
            law_frame_header_reads_back(
                analysis.block_size,
                sample_rate,
                analysis.channel_assignment,
                bits_per_sample,
                number,
                rest,
                format,
            );
        }
        lemma_read_padded(header, body, view, analysis.subframes, rest, format);
    }
}

/// A header, packed subframes and a check make a frame that reads back.
proof fn lemma_read_padded(
    header: Seq<u8>,
    body: Seq<bool>,
    view: HeaderView,
    subframes: Seq<SubframeView>,
    rest: Seq<u8>,
    format: StreamFormat,
)
    requires
        forall|more: Seq<bool>| #[trigger] read_body(body + more, view) == Some((subframes, more)),
        forall|more: Seq<u8>| #[trigger] read_header(header + more, format) == Some(
            (view, header.len() as int),
        ),
    ensures
        ({
            let frame = header + packed(body + padding_bits(body.len()));
            let bytes = frame + be_bytes(crc16_of(frame) as nat, 2);
            read_front(bytes + rest, format) == Some((view, subframes, bytes.len() as int))
        }),
{
    reveal(read_front);
    let padding = padding_bits(body.len());
    let bits = body + padding;
    let frame = header + packed(bits);
    let check = be_bytes(crc16_of(frame) as nat, 2);
    let all = frame + check + rest;
    assert(bits.len() % 8 == 0);
    assert(all == header + (packed(bits) + (check + rest)));
    assert(read_header(header + (packed(bits) + (check + rest)), format) == Some(
        (view, header.len() as int),
    ));
    assert(all.skip(header.len() as int) == packed(bits) + (check + rest));
    lemma_byte_bits_concat(packed(bits), check + rest);
    lemma_bits_of_packed(bits);
    let behind = byte_bits(check + rest);
    assert(bits + behind == body + (padding + behind));
    assert(read_body(body + (padding + behind), view) == Some((subframes, padding + behind)));
    let end = header.len() as int + (body.len() as int + 7) / 8;
    assert(packed(bits).len() == bits.len() / 8);
    assert(end == frame.len());
    reveal_with_fuel(be_bytes, 3);
    assert(all.subrange(end, end + 2) == check);
    assert(all.take(end) == frame);
}

/// Subframes that read back, each in the width of its channel.
pub open spec fn body_reads_back(
    subframes: Seq<SubframeView>,
    widths: (nat, nat),
    block_size: nat,
) -> bool {
    forall|i: int|
        0 <= i < subframes.len() ==> reads_back(
            #[trigger] subframes[i],
            width_at(widths, i),
            block_size,
        )
}

proof fn lemma_read_body(
    subframes: Seq<SubframeView>,
    header: HeaderView,
    padding: Seq<bool>,
)
    requires
        body_reads_back(
            subframes,
            channel_widths(header.assignment, header.bits_per_sample),
            header.block_size,
        ),
    ensures
        read_channels(
            body_bits(
                subframes,
                channel_widths(header.assignment, header.bits_per_sample),
            ) + padding,
            header,
            subframes.len(),
        ) == Some((subframes, padding)),
    decreases subframes.len(),
{
    let widths = channel_widths(header.assignment, header.bits_per_sample);
    let body = body_bits(subframes, widths);
    if subframes.len() == 0 {
        assert(body + padding == padding);
        assert(subframes == Seq::<SubframeView>::empty());
    } else {
        let earlier = subframes.drop_last();
        let place = subframes.len() - 1;
        let last = subframe_bits(subframes[place], width_at(widths, place));
        assert forall|i: int| 0 <= i < earlier.len() implies reads_back(
            #[trigger] earlier[i],
            width_at(widths, i),
            header.block_size,
        ) by {
            assert(earlier[i] == subframes[i]);
        }
        lemma_read_body(earlier, header, last + padding);
        assert(body + padding == body_bits(earlier, widths) + (last + padding));
        assert(earlier.push(subframes[place]) == subframes);
        assert(reads_back(subframes[place], width_at(widths, place), header.block_size));
    }
}

proof fn lemma_analysis_reads_back(
    interleaved: Seq<i32>,
    channels: u8,
    bits_per_sample: u8,
    sample_rate: u32,
    profile: LevelProfile,
    predictors: Seq<LpcPredictors>,
)
    requires
        interleaved.len() > 0,
        channels > 0,
        signals_of(interleaved, channels, profile) is Ok,
        forall|i: int| 0 <= i < predictors.len() ==> predictors_are_valid(#[trigger] predictors[i]@),
        ({
            let analysis = analysis_of(
                interleaved,
                channels,
                bits_per_sample,
                sample_rate,
                profile,
                predictors,
            )->Ok_0;
            body_is_writable(
                analysis.subframes,
                channel_widths(analysis.channel_assignment, bits_per_sample as nat),
            )
        }),
    ensures
        ({
            let analysis = analysis_of(
                interleaved,
                channels,
                bits_per_sample,
                sample_rate,
                profile,
                predictors,
            )->Ok_0;
            let widths = channel_widths(analysis.channel_assignment, bits_per_sample as nat);
            &&& analysis.subframes.len() == channels
            &&& channel_count(analysis.channel_assignment) == channels
            &&& analysis.block_size * channels == interleaved.len()
            &&& analysis.block_size >= 1
            &&& body_reads_back(analysis.subframes, widths, analysis.block_size as nat)
        }),
{
    let analysis = analysis_of(
        interleaved,
        channels,
        bits_per_sample,
        sample_rate,
        profile,
        predictors,
    )->Ok_0;
    let split = signals_of(interleaved, channels, profile)->Ok_0;
    let widths = channel_widths(analysis.channel_assignment, bits_per_sample as nat);
    lemma_whole_frames(interleaved.len() as int, channels as int);
    assert forall|i: int| 0 <= i < analysis.subframes.len() implies reads_back(
        #[trigger] analysis.subframes[i],
        width_at(widths, i),
        analysis.block_size as nat,
    ) by {
        assert(subframe_is_writable(analysis.subframes[i], width_at(widths, i)));
        law_subframe_reads_back(
            split.signals[i],
            width_at(widths, i),
            sample_rate,
            profile,
            predictors_for(predictors, i),
        );
    }
}

} // verus!
