//! Frames: splitting samples into channel signals, choosing how each is coded,
//! and laying the frame out as bytes.

use vstd::arithmetic::div_mod::lemma_fundamental_div_mod;
use vstd::prelude::*;

use crate::bit_writer::{written_bits, FrameBitWriter};
use crate::bits::padding_bits;
use crate::bytes::{append_bytes, be_bytes, lemma_packed_bits, packed, push_be16};
use crate::crc::{crc16, crc16_of};
use crate::error::{Error, ErrorView, IoErrorKind, Result};
use crate::frame_header::{assign_independent, channel_bits_per_sample, channel_widths, encode_frame_header, frame_header, independent_assignment, width_at, ChannelAssignment, FrameHeaderNumber, MAX_CHANNELS};
use crate::level::LevelProfile;
use crate::residual::MAX_BLOCK_SIZE;
use crate::rice::wrote;
use crate::subframe::{predictors_are_valid, subframe_bits, subframe_is_codable, subframe_is_writable, write_subframe, AnalyzedSubframe, LpcPredictors, LpcView, SubframeView};
use crate::subframe_search::{best_subframe, choose_subframe, lemma_best_subframe_is_codable};
use crate::text::{decimal, numbered};

verus! {

/// A coded frame.
#[derive(Debug, Clone)]
pub struct EncodedFrame {
    pub bytes: Vec<u8>,
    pub sample_count: u16,
}

/// How a frame is coded: one subframe for each channel signal.
#[derive(Debug, Clone)]
pub struct FrameAnalysis {
    pub block_size: u16,
    pub channel_assignment: ChannelAssignment,
    pub subframes: Vec<AnalyzedSubframe>,
}

/// A [`FrameAnalysis`] over mathematical sequences.
pub struct AnalysisView {
    pub block_size: u16,
    pub channel_assignment: ChannelAssignment,
    pub subframes: Seq<SubframeView>,
}

impl View for FrameAnalysis {
    type V = AnalysisView;

    open spec fn view(&self) -> AnalysisView {
        AnalysisView {
            block_size: self.block_size,
            channel_assignment: self.channel_assignment,
            subframes: self.subframes@.map_values(|subframe: AnalyzedSubframe| subframe@),
        }
    }
}

/// The channel signals of a frame.
#[derive(Debug, Clone)]
pub struct FrameSignals {
    pub assignment: ChannelAssignment,
    pub signals: Vec<Vec<i32>>,
}

/// The channel signals of a frame, over mathematical sequences.
pub struct SignalsView {
    pub assignment: ChannelAssignment,
    pub signals: Seq<Seq<i32>>,
}

impl View for FrameSignals {
    type V = SignalsView;

    open spec fn view(&self) -> SignalsView {
        SignalsView {
            assignment: self.assignment,
            signals: self.signals@.map_values(|signal: Vec<i32>| signal@),
        }
    }
}

/// One channel of interleaved samples.
pub open spec fn channel_of(interleaved: Seq<i32>, channels: nat, channel: nat) -> Seq<i32> {
    Seq::new(
        interleaved.len() / channels,
        |i: int| interleaved[i * (channels as int) + channel],
    )
}

/// The sum of the magnitudes of the samples.
pub open spec fn magnitude_cost(samples: Seq<i32>) -> nat
    decreases samples.len(),
{
    if samples.len() == 0 {
        0
    } else {
        magnitude_cost(samples.drop_last()) + magnitude(samples.last() as int)
    }
}

pub open spec fn magnitude(value: int) -> nat {
    if value >= 0 {
        value as nat
    } else {
        (-value) as nat
    }
}

/// The difference of two channels.
pub open spec fn side_of(left: Seq<i32>, right: Seq<i32>) -> Seq<i32> {
    Seq::new(left.len(), |i: int| (left[i] - right[i]) as i32)
}

/// The mean of two channels, rounded down.
pub open spec fn mid_of(left: Seq<i32>, right: Seq<i32>) -> Seq<i32> {
    Seq::new(left.len(), |i: int| ((left[i] + right[i]) / 2) as i32)
}

/// The two channels differ by no more than a sample can hold.
pub open spec fn difference_fits(interleaved: Seq<i32>) -> bool {
    forall|i: int|
        0 <= i < interleaved.len() / 2 ==> i32::MIN <= #[trigger] channel_of(interleaved, 2, 0)[i]
            - channel_of(interleaved, 2, 1)[i] <= i32::MAX
}

/// Mid and side bring back left and right: the bit that the mid channel lost to
/// rounding is the lowest bit of the side channel.
pub proof fn law_mid_side_restores_stereo(left: i32, right: i32)
    ensures
        ({
            let side = left - right;
            let mid = (left + right) / 2;
            let sum = 2 * mid + side % 2;
            &&& i32::MIN <= mid <= i32::MAX
            &&& (sum + side) / 2 == left
            &&& (sum - side) / 2 == right
        }),
{
}

/// The signals that a stereo frame stores: mid and side where the profile allows
/// it and they are smaller than left and right.
pub open spec fn stereo_signals(interleaved: Seq<i32>, use_mid_side: bool) -> SignalsView {
    let left = channel_of(interleaved, 2, 0);
    let right = channel_of(interleaved, 2, 1);
    let mid = mid_of(left, right);
    let side = side_of(left, right);
    if use_mid_side && magnitude_cost(mid) + magnitude_cost(side) < magnitude_cost(left)
        + magnitude_cost(right) {
        SignalsView { assignment: ChannelAssignment::MidSide, signals: seq![mid, side] }
    } else {
        SignalsView { assignment: ChannelAssignment::IndependentStereo, signals: seq![left, right] }
    }
}

pub open spec fn channel_count_error(channels: u8) -> ErrorView {
    ErrorView::UnsupportedFlac(
        "only one to eight channels can be stored, found "@ + decimal(channels as nat)
            + " channels"@,
    )
}

/// The channel signals of interleaved samples, or why there are none.
pub open spec fn signals_of(
    interleaved: Seq<i32>,
    channels: u8,
    profile: LevelProfile,
) -> std::result::Result<SignalsView, ErrorView> {
    if interleaved.len() % (channels as nat) != 0 {
        Err(ErrorView::Encode("frame samples are not aligned to channel count"@))
    } else if channels > MAX_CHANNELS {
        Err(channel_count_error(channels))
    } else if interleaved.len() / (channels as nat) > MAX_BLOCK_SIZE {
        Err(ErrorView::Encode("frame block size exceeds u16"@))
    } else if channels == 2 {
        Ok(stereo_signals(interleaved, profile.use_mid_side_stereo))
    } else {
        Ok(
            SignalsView {
                assignment: independent_assignment(channels),
                signals: Seq::new(
                    channels as nat,
                    |i: int| channel_of(interleaved, channels as nat, i as nat),
                ),
            },
        )
    }
}

/// Samples of whole moments hold a moment at least.
pub proof fn lemma_whole_frames(length: int, channels: int)
    requires
        length > 0,
        channels > 0,
        length % channels == 0,
    ensures
        length / channels >= 1,
        (length / channels) * channels == length,
{
    lemma_fundamental_div_mod(length, channels);
    assert(length / channels >= 1 && (length / channels) * channels == length) by (nonlinear_arith)
        requires
            length == channels * (length / channels),
            length > 0,
            channels > 0,
    ;
}

/// The predictors of a signal; a signal without an entry has none.
pub open spec fn predictors_for(predictors: Seq<LpcPredictors>, index: int) -> Seq<
    Option<LpcView>,
> {
    if 0 <= index < predictors.len() {
        predictors[index]@
    } else {
        Seq::empty()
    }
}

/// How interleaved samples are coded, or why they are not.
pub open spec fn analysis_of(
    interleaved: Seq<i32>,
    channels: u8,
    bits_per_sample: u8,
    sample_rate: u32,
    profile: LevelProfile,
    predictors: Seq<LpcPredictors>,
) -> std::result::Result<AnalysisView, ErrorView> {
    match signals_of(interleaved, channels, profile) {
        Err(error) => Err(error),
        Ok(split) => {
            let widths = channel_widths(split.assignment, bits_per_sample as nat);
            Ok(
                AnalysisView {
                    block_size: (interleaved.len() / (channels as nat)) as u16,
                    channel_assignment: split.assignment,
                    subframes: Seq::new(
                        split.signals.len(),
                        |i: int|
                            best_subframe(
                                split.signals[i],
                                width_at(widths, i),
                                sample_rate,
                                profile,
                                predictors_for(predictors, i),
                            ),
                    ),
                },
            )
        },
    }
}

/// One channel of interleaved samples.
pub fn extract_channel(interleaved: &[i32], channels: usize, channel: usize) -> (samples: Vec<i32>)
    requires
        channel < channels,
    ensures
        samples@ == channel_of(interleaved@, channels as nat, channel as nat),
{
    let mut samples: Vec<i32> = Vec::new();
    let count: usize = interleaved.len() / channels;
    let mut index: usize = 0;
    while index < count
        invariant
            index <= count,
            channel < channels,
            count == interleaved@.len() / (channels as nat),
            interleaved@.len() <= usize::MAX,
            samples@.len() == index,
            forall|i: int|
                0 <= i < index ==> #[trigger] samples@[i] == interleaved@[i * channels + channel],
        decreases count - index,
    {
        proof {
            let length = interleaved@.len() as int;
            let width = channels as int;
            assert(index * width + width <= length && index * width >= 0) by (nonlinear_arith)
                requires
                    width > 0,
                    0 <= index,
                    index + 1 <= length / width,
            ;
        }
        samples.push(interleaved[index * channels + channel]);
        index = index + 1;
    }
    assert(samples@ == channel_of(interleaved@, channels as nat, channel as nat));
    samples
}

/// The sum of the magnitudes of the samples.
pub fn sample_magnitude_cost(samples: &[i32]) -> (cost: u64)
    requires
        samples@.len() <= MAX_BLOCK_SIZE,
    ensures
        cost == magnitude_cost(samples@),
        cost <= 0x8000_0000 * samples@.len(),
{
    let mut cost: u64 = 0;
    let mut index: usize = 0;
    while index < samples.len()
        invariant
            index <= samples.len() <= MAX_BLOCK_SIZE,
            cost == magnitude_cost(samples@.take(index as int)),
            cost <= 0x8000_0000 * index,
        decreases samples.len() - index,
    {
        assert(samples@.take(index + 1).drop_last() == samples@.take(index as int));
        let sample: i64 = samples[index] as i64;
        cost = cost + if sample >= 0 {
            sample as u64
        } else {
            (-sample) as u64
        };
        index = index + 1;
    }
    assert(samples@.take(index as int) == samples@);
    cost
}

/// Mid and side of two channels.
fn mid_and_side(left: &[i32], right: &[i32]) -> (signals: (Vec<i32>, Vec<i32>))
    requires
        left@.len() == right@.len(),
        forall|i: int|
            0 <= i < left@.len() ==> i32::MIN <= #[trigger] left@[i] - right@[i] <= i32::MAX,
    ensures
        signals.0@ == mid_of(left@, right@),
        signals.1@ == side_of(left@, right@),
{
    let mut mid: Vec<i32> = Vec::new();
    let mut side: Vec<i32> = Vec::new();
    let mut index: usize = 0;
    while index < left.len()
        invariant
            index <= left@.len(),
            left@.len() == right@.len(),
            forall|i: int|
                0 <= i < left@.len() ==> i32::MIN <= #[trigger] left@[i] - right@[i] <= i32::MAX,
            mid@.len() == index,
            side@.len() == index,
            forall|i: int| 0 <= i < index ==> #[trigger] mid@[i] == mid_of(left@, right@)[i],
            forall|i: int| 0 <= i < index ==> #[trigger] side@[i] == side_of(left@, right@)[i],
        decreases left.len() - index,
    {
        assert(i32::MIN <= left@[index as int] - right@[index as int] <= i32::MAX);
        side.push(left[index] - right[index]);
        let sum: i64 = left[index] as i64 + right[index] as i64;
        let half: i64 = ((sum + 0x2_0000_0000) as u64 / 2) as i64 - 0x1_0000_0000;
        assert(half == sum as int / 2);
        mid.push(half as i32);
        index = index + 1;
    }
    assert(mid@ == mid_of(left@, right@));
    assert(side@ == side_of(left@, right@));
    (mid, side)
}

/// Splits a stereo frame into its two signals.
fn split_stereo(interleaved: &[i32], use_mid_side: bool) -> (split: FrameSignals)
    requires
        interleaved@.len() / 2 <= MAX_BLOCK_SIZE,
        use_mid_side ==> difference_fits(interleaved@),
    ensures
        split@ == stereo_signals(interleaved@, use_mid_side),
{
    let left = extract_channel(interleaved, 2, 0);
    let right = extract_channel(interleaved, 2, 1);
    if use_mid_side {
        assert forall|i: int| 0 <= i < left@.len() implies i32::MIN <= #[trigger] left@[i]
            - right@[i] <= i32::MAX by {
            assert(left@[i] == channel_of(interleaved@, 2, 0)[i]);
        }
        let (mid, side) = mid_and_side(left.as_slice(), right.as_slice());
        let independent_cost: u64 = sample_magnitude_cost(left.as_slice()) + sample_magnitude_cost(
            right.as_slice(),
        );
        let mid_side_cost: u64 = sample_magnitude_cost(mid.as_slice()) + sample_magnitude_cost(
            side.as_slice(),
        );
        if mid_side_cost < independent_cost {
            let mut signals: Vec<Vec<i32>> = Vec::new();
            signals.push(mid);
            signals.push(side);
            let split = FrameSignals { assignment: ChannelAssignment::MidSide, signals };
            assert(split@.signals == seq![
                mid_of(
                    channel_of(interleaved@, 2, 0),
                    channel_of(interleaved@, 2, 1),
                ),
                side_of(
                    channel_of(interleaved@, 2, 0),
                    channel_of(interleaved@, 2, 1),
                ),
            ]);
            return split;
        }
    }
    let mut signals: Vec<Vec<i32>> = Vec::new();
    signals.push(left);
    signals.push(right);
    let split = FrameSignals { assignment: ChannelAssignment::IndependentStereo, signals };
    assert(split@.signals == seq![
        channel_of(interleaved@, 2, 0),
        channel_of(interleaved@, 2, 1),
    ]);
    split
}

/// Splits a frame into the signals of its channels as they are.
fn split_independent(interleaved: &[i32], channels: u8) -> (split: FrameSignals)
    requires
        1 <= channels <= MAX_CHANNELS,
        interleaved@.len() % (channels as nat) == 0,
    ensures
        split@.assignment == independent_assignment(channels),
        split@.signals == Seq::new(
            channels as nat,
            |i: int| channel_of(interleaved@, channels as nat, i as nat),
        ),
{
    let mut signals: Vec<Vec<i32>> = Vec::new();
    let mut channel: u8 = 0;
    while channel < channels
        invariant
            channel <= channels <= MAX_CHANNELS,
            interleaved@.len() % (channels as nat) == 0,
            signals@.len() == channel,
            forall|i: int|
                0 <= i < channel ==> #[trigger] signals@[i]@ == channel_of(
                    interleaved@,
                    channels as nat,
                    i as nat,
                ),
        decreases channels - channel,
    {
        signals.push(extract_channel(interleaved, channels as usize, channel as usize));
        channel = channel + 1;
    }
    let split = FrameSignals { assignment: assign_independent(channels), signals };
    assert(split@.signals == Seq::new(
        channels as nat,
        |i: int| channel_of(interleaved@, channels as nat, i as nat),
    ));
    split
}

/// Splits the interleaved samples of a frame into the signals that it stores.
pub fn split_channels(interleaved: &[i32], channels: u8, profile: LevelProfile) -> (split: Result<
    FrameSignals,
>)
    requires
        channels > 0,
        channels == 2 && profile.use_mid_side_stereo ==> difference_fits(interleaved@),
    ensures
        match signals_of(interleaved@, channels, profile) {
            Ok(expected) => split matches Ok(found) && found@ == expected,
            Err(expected) => split matches Err(error) && error@ == expected,
        },
{
    if interleaved.len() % channels as usize != 0 {
        return Err(Error::Encode("frame samples are not aligned to channel count".to_owned()));
    }
    if channels > MAX_CHANNELS {
        return Err(
            Error::UnsupportedFlac(
                numbered(
                    "only one to eight channels can be stored, found ",
                    channels as u64,
                    " channels",
                ),
            ),
        );
    }
    if interleaved.len() / channels as usize > MAX_BLOCK_SIZE {
        return Err(Error::Encode("frame block size exceeds u16".to_owned()));
    }
    if channels == 2 {
        Ok(split_stereo(interleaved, profile.use_mid_side_stereo))
    } else {
        Ok(split_independent(interleaved, channels))
    }
}

/// Decides how the interleaved samples of a frame are coded. The predictors were
/// estimated for the signals that [`split_channels`] gives.
pub fn analyze_frame(
    interleaved: &[i32],
    channels: u8,
    bits_per_sample: u8,
    sample_rate: u32,
    profile: LevelProfile,
    predictors: &[LpcPredictors],
) -> (analysis: Result<FrameAnalysis>)
    requires
        channels > 0,
        interleaved@.len() > 0,
        bits_per_sample < 255,
        channels == 2 && profile.use_mid_side_stereo ==> difference_fits(interleaved@),
        forall|i: int| 0 <= i < predictors@.len() ==> predictors_are_valid(#[trigger] predictors@[i]@),
    ensures
        match analysis_of(
            interleaved@,
            channels,
            bits_per_sample,
            sample_rate,
            profile,
            predictors@,
        ) {
            Ok(expected) => analysis matches Ok(found) && found@ == expected,
            Err(expected) => analysis matches Err(error) && error@ == expected,
        },
{
    let split = match split_channels(interleaved, channels, profile) {
        Ok(split) => split,
        Err(error) => return Err(error),
    };
    let block_size: u16 = (interleaved.len() / channels as usize) as u16;
    let widths = channel_bits_per_sample(split.assignment, bits_per_sample);
    let ghost expected = analysis_of(
        interleaved@,
        channels,
        bits_per_sample,
        sample_rate,
        profile,
        predictors@,
    )->Ok_0;
    let none = LpcPredictors { by_order: Vec::new() };
    assert(none@ == Seq::<Option<LpcView>>::empty());
    proof {
        lemma_whole_frames(interleaved@.len() as int, channels as int);
    }
    let mut subframes: Vec<AnalyzedSubframe> = Vec::new();
    let mut index: usize = 0;
    while index < split.signals.len()
        invariant
            index <= split.signals@.len(),
            Ok::<SignalsView, ErrorView>(split@) == signals_of(interleaved@, channels, profile),
            1 <= channels <= MAX_CHANNELS,
            1 <= interleaved@.len() / (channels as nat) <= MAX_BLOCK_SIZE,
            none@ == Seq::<Option<LpcView>>::empty(),
            (widths.0 as nat, widths.1 as nat) == channel_widths(
                split.assignment,
                bits_per_sample as nat,
            ),
            forall|i: int|
                0 <= i < predictors@.len() ==> predictors_are_valid(#[trigger] predictors@[i]@),
            expected == analysis_of(
                interleaved@,
                channels,
                bits_per_sample,
                sample_rate,
                profile,
                predictors@,
            )->Ok_0,
            subframes@.len() == index,
            forall|i: int|
                0 <= i < index ==> #[trigger] subframes@[i]@ == expected.subframes[i],
        decreases split.signals.len() - index,
    {
        assert(split@.signals[index as int] == split.signals@[index as int]@);
        let width: u8 = if index == 0 {
            widths.0
        } else {
            widths.1
        };
        let estimated = if index < predictors.len() {
            &predictors[index]
        } else {
            &none
        };
        let subframe = choose_subframe(
            split.signals[index].as_slice(),
            width,
            sample_rate,
            profile,
            estimated,
        );
        subframes.push(subframe);
        index = index + 1;
    }
    let analysis = FrameAnalysis { block_size, channel_assignment: split.assignment, subframes };
    assert(analysis@.subframes == expected.subframes);
    Ok(analysis)
}

/// The bits of the subframes of a frame, one behind the other.
pub open spec fn body_bits(subframes: Seq<SubframeView>, widths: (nat, nat)) -> Seq<bool>
    decreases subframes.len(),
{
    if subframes.len() == 0 {
        Seq::empty()
    } else {
        body_bits(subframes.drop_last(), widths) + subframe_bits(
            subframes.last(),
            width_at(widths, subframes.len() - 1),
        )
    }
}

/// Every field of the subframes fits where it is written.
pub open spec fn body_is_writable(subframes: Seq<SubframeView>, widths: (nat, nat)) -> bool {
    forall|i: int|
        0 <= i < subframes.len() ==> subframe_is_writable(
            #[trigger] subframes[i],
            width_at(widths, i),
        )
}

/// A frame without its check: the header, and the subframes up to a whole byte.
pub open spec fn unchecked_frame(
    header: Seq<u8>,
    analysis: AnalysisView,
    bits_per_sample: u8,
) -> Seq<u8> {
    let body = body_bits(
        analysis.subframes,
        channel_widths(analysis.channel_assignment, bits_per_sample as nat),
    );
    header + packed(body + padding_bits(body.len()))
}

/// The bytes of a frame, or why there are none.
pub open spec fn frame_bytes(
    analysis: AnalysisView,
    bits_per_sample: u8,
    sample_rate: u32,
    number: FrameHeaderNumber,
) -> std::result::Result<Seq<u8>, ErrorView> {
    if analysis.subframes.len() == 0 {
        Err(ErrorView::Encode("frame analysis is missing subframes"@))
    } else {
        match frame_header(
            analysis.block_size,
            sample_rate,
            analysis.channel_assignment,
            bits_per_sample,
            number,
        ) {
            Err(error) => Err(error),
            Ok(header) => if body_is_writable(
                analysis.subframes,
                channel_widths(analysis.channel_assignment, bits_per_sample as nat),
            ) {
                let frame = unchecked_frame(header, analysis, bits_per_sample);
                Ok(frame + be_bytes(crc16_of(frame) as nat, 2))
            } else {
                Err(ErrorView::Io(IoErrorKind::InvalidInput))
            },
        }
    }
}

/// Lays the subframes of a frame out as bytes.
#[verifier::rlimit(50)]
fn encode_body(analysis: &FrameAnalysis, widths: (u8, u8)) -> (body: Result<Vec<u8>>)
    requires
        analysis@.subframes.len() > 0,
        forall|i: int|
            0 <= i < analysis@.subframes.len() ==> subframe_is_codable(
                #[trigger] analysis@.subframes[i],
            ),
    ensures
        body is Ok <==> body_is_writable(
            analysis@.subframes,
            (widths.0 as nat, widths.1 as nat),
        ),
        body matches Ok(bytes) ==> ({
            let bits = body_bits(analysis@.subframes, (widths.0 as nat, widths.1 as nat));
            bytes@ == packed(bits + padding_bits(bits.len()))
        }),
        body matches Err(error) ==> error@ == ErrorView::Io(IoErrorKind::InvalidInput),
{
    let ghost bits = body_bits(analysis@.subframes, (widths.0 as nat, widths.1 as nat));
    let mut writer = FrameBitWriter::new();
    let ghost both = (widths.0 as nat, widths.1 as nat);
    let mut index: usize = 0;
    assert(analysis@.subframes.take(0) == Seq::<SubframeView>::empty());
    while index < analysis.subframes.len()
        invariant
            index <= analysis.subframes@.len(),
            both == (widths.0 as nat, widths.1 as nat),
            forall|i: int|
                0 <= i < analysis@.subframes.len() ==> subframe_is_codable(
                    #[trigger] analysis@.subframes[i],
                ),
            forall|i: int|
                0 <= i < index ==> subframe_is_writable(
                    #[trigger] analysis@.subframes[i],
                    width_at(both, i),
                ),
            written_bits(writer) == body_bits(analysis@.subframes.take(index as int), both),
        decreases analysis.subframes.len() - index,
    {
        let width: u8 = if index == 0 {
            widths.0
        } else {
            widths.1
        };
        assert(analysis@.subframes[index as int] == analysis.subframes@[index as int]@);
        match write_subframe(&mut writer, &analysis.subframes[index], width) {
            Ok(()) => {},
            Err(error) => return Err(error),
        }
        assert(analysis@.subframes.take(index + 1).drop_last() == analysis@.subframes.take(
            index as int,
        ));
        index = index + 1;
    }
    assert(analysis@.subframes.take(index as int) == analysis@.subframes);
    assert(written_bits(writer) == bits);
    match wrote(writer.byte_align()) {
        Ok(()) => {},
        Err(error) => return Err(error),
    }
    let ghost padded = bits + padding_bits(bits.len());
    assert(written_bits(writer) == padded);
    assert(padded.len() % 8 == 0);
    let bytes = writer.into_bytes();
    proof {
        assert(padded.take(padded.len() as int) == padded);
        lemma_packed_bits(bytes@);
    }
    Ok(bytes)
}

/// Lays a frame out as bytes.
pub fn serialize_frame(
    analysis: &FrameAnalysis,
    bits_per_sample: u8,
    sample_rate: u32,
    number: FrameHeaderNumber,
) -> (frame: Result<EncodedFrame>)
    requires
        analysis.block_size >= 1,
        forall|i: int|
            0 <= i < analysis@.subframes.len() ==> subframe_is_codable(
                #[trigger] analysis@.subframes[i],
            ),
    ensures
        match frame_bytes(analysis@, bits_per_sample, sample_rate, number) {
            Ok(expected) => frame matches Ok(encoded) && encoded.bytes@ == expected
                && encoded.sample_count == analysis.block_size,
            Err(expected) => frame matches Err(error) && error@ == expected,
        },
{
    if analysis.subframes.len() == 0 {
        return Err(Error::Encode("frame analysis is missing subframes".to_owned()));
    }
    let mut bytes = match encode_frame_header(
        analysis.block_size,
        sample_rate,
        analysis.channel_assignment,
        bits_per_sample,
        number,
    ) {
        Ok(header) => header,
        Err(error) => return Err(error),
    };
    assert(bits_per_sample <= 32) by {
        reveal(frame_header);
    }
    let widths = channel_bits_per_sample(analysis.channel_assignment, bits_per_sample);
    let body = match encode_body(analysis, widths) {
        Ok(body) => body,
        Err(error) => return Err(error),
    };
    append_bytes(&mut bytes, body.as_slice());
    let check: u16 = crc16(bytes.as_slice());
    push_be16(&mut bytes, check);
    Ok(EncodedFrame { bytes, sample_count: analysis.block_size })
}

/// The chosen subframe has a type code of the format.
proof fn lemma_analysis_is_codable(
    interleaved: Seq<i32>,
    channels: u8,
    bits_per_sample: u8,
    sample_rate: u32,
    profile: LevelProfile,
    predictors: Seq<LpcPredictors>,
)
    requires
        interleaved.len() > 0,
        channels > 0,
        forall|i: int| 0 <= i < predictors.len() ==> predictors_are_valid(#[trigger] predictors[i]@),
    ensures
        analysis_of(
            interleaved,
            channels,
            bits_per_sample,
            sample_rate,
            profile,
            predictors,
        ) matches Ok(analysis) ==> {
            &&& analysis.block_size >= 1
            &&& analysis.subframes.len() > 0
            &&& forall|i: int|
                0 <= i < analysis.subframes.len() ==> subframe_is_codable(
                    #[trigger] analysis.subframes[i],
                )
        },
{
    match signals_of(interleaved, channels, profile) {
        Err(_) => {},
        Ok(split) => {
            lemma_whole_frames(interleaved.len() as int, channels as int);
            let analysis = analysis_of(
                interleaved,
                channels,
                bits_per_sample,
                sample_rate,
                profile,
                predictors,
            )->Ok_0;
            let widths = channel_widths(split.assignment, bits_per_sample as nat);
            assert forall|i: int| 0 <= i < analysis.subframes.len() implies subframe_is_codable(
                #[trigger] analysis.subframes[i],
            ) by {
                lemma_best_subframe_is_codable(
                    split.signals[i],
                    width_at(widths, i),
                    sample_rate,
                    profile,
                    predictors_for(predictors, i),
                );
            }
        },
    }
}

/// The bytes of the frame of interleaved samples, or why there are none.
pub open spec fn encoded_frame(
    interleaved: Seq<i32>,
    channels: u8,
    bits_per_sample: u8,
    sample_rate: u32,
    number: FrameHeaderNumber,
    profile: LevelProfile,
    predictors: Seq<LpcPredictors>,
) -> std::result::Result<Seq<u8>, ErrorView> {
    match analysis_of(interleaved, channels, bits_per_sample, sample_rate, profile, predictors) {
        Err(error) => Err(error),
        Ok(analysis) => frame_bytes(analysis, bits_per_sample, sample_rate, number),
    }
}

/// Encodes the interleaved samples of a frame. The predictors were estimated for
/// the signals that [`split_channels`] gives.
pub fn encode_numbered_frame(
    interleaved: &[i32],
    channels: u8,
    bits_per_sample: u8,
    sample_rate: u32,
    number: FrameHeaderNumber,
    profile: LevelProfile,
    predictors: &[LpcPredictors],
) -> (frame: Result<EncodedFrame>)
    requires
        channels > 0,
        interleaved@.len() > 0,
        bits_per_sample < 255,
        channels == 2 && profile.use_mid_side_stereo ==> difference_fits(interleaved@),
        forall|i: int| 0 <= i < predictors@.len() ==> predictors_are_valid(#[trigger] predictors@[i]@),
    ensures
        match encoded_frame(
            interleaved@,
            channels,
            bits_per_sample,
            sample_rate,
            number,
            profile,
            predictors@,
        ) {
            Ok(expected) => frame matches Ok(encoded) && encoded.bytes@ == expected
                && encoded.sample_count == interleaved@.len() / (channels as nat),
            Err(expected) => frame matches Err(error) && error@ == expected,
        },
{
    let analysis = match analyze_frame(
        interleaved,
        channels,
        bits_per_sample,
        sample_rate,
        profile,
        predictors,
    ) {
        Ok(analysis) => analysis,
        Err(error) => return Err(error),
    };
    proof {
        lemma_analysis_is_codable(
            interleaved@,
            channels,
            bits_per_sample,
            sample_rate,
            profile,
            predictors@,
        );
    }
    serialize_frame(&analysis, bits_per_sample, sample_rate, number)
}

/// Encodes a frame of a stream whose frames are counted.
pub fn encode_frame(
    interleaved: &[i32],
    channels: u8,
    bits_per_sample: u8,
    sample_rate: u32,
    frame_index: u64,
    profile: LevelProfile,
    predictors: &[LpcPredictors],
) -> (frame: Result<EncodedFrame>)
    requires
        channels > 0,
        interleaved@.len() > 0,
        bits_per_sample < 255,
        channels == 2 && profile.use_mid_side_stereo ==> difference_fits(interleaved@),
        forall|i: int| 0 <= i < predictors@.len() ==> predictors_are_valid(#[trigger] predictors@[i]@),
    ensures
        match encoded_frame(
            interleaved@,
            channels,
            bits_per_sample,
            sample_rate,
            FrameHeaderNumber::Frame(frame_index),
            profile,
            predictors@,
        ) {
            Ok(expected) => frame matches Ok(encoded) && encoded.bytes@ == expected
                && encoded.sample_count == interleaved@.len() / (channels as nat),
            Err(expected) => frame matches Err(error) && error@ == expected,
        },
{
    encode_numbered_frame(
        interleaved,
        channels,
        bits_per_sample,
        sample_rate,
        FrameHeaderNumber::Frame(frame_index),
        profile,
        predictors,
    )
}

} // verus!
