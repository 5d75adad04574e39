//! What holds of whole FLAC streams.

use vstd::arithmetic::div_mod::{lemma_fundamental_div_mod, lemma_mod_bound};
use vstd::arithmetic::mul::{lemma_mul_inequality, lemma_mul_is_commutative, lemma_mul_is_distributive_add_other_way, lemma_mul_is_distributive_sub_other_way};
use vstd::prelude::*;

use crate::encode_frames::{all_predictors_are_valid, differences_fit, lemma_part_difference, planned_frame_bytes, planned_frames, predictors_of_frame, samples_of_frame, FrameView};
use crate::encode_pipeline::{chunk_end, chunk_failure, chunk_length, chunk_outcome, lemma_chunk_end, session_frames, EncodeChunkPolicy};
use crate::error::ErrorView;
use crate::frame::AnalysisView;
use crate::aiff_round_trip::lemma_fitting_samples_are_stored;
use crate::encodability::law_valid_frames_encode;
use crate::frame_header::{bit_depth_code, sample_rate_field, MAX_CHANNELS};
use crate::frame_reading::{law_encoded_frame_reads_back, read_frame, StreamFormat};
use crate::lossless::frame_samples;
use crate::md5::digest_envelope;
use crate::pcm::ByteOrder;
use crate::plan::{block_offset, blocks_total, header_number, lemma_next_offset, lemma_offsets_grow, planned_frame, PlanView};
use crate::prediction::ints;
use crate::rice::all_fit;
use crate::stream::frames_due;
use crate::subframe::LpcPredictors;

verus! {

/// A frame out of the samples of a chunk is the frame out of all samples.
proof fn lemma_frame_in_chunk(
    plan: PlanView,
    samples: Seq<i32>,
    base: nat,
    length: nat,
    index: int,
)
    requires
        0 <= index < plan.blocks.len(),
        base <= block_offset(plan.blocks, index),
        block_offset(plan.blocks, index + 1) <= base + length,
        (base + length) * plan.spec.channels <= samples.len(),
    ensures
        ({
            let channels = plan.spec.channels as int;
            let chunk = samples.skip(base * channels).take(length * channels);
            samples_of_frame(plan, chunk, base, index) == samples_of_frame(plan, samples, 0, index)
        }),
{
    let channels = plan.spec.channels as int;
    let offset = block_offset(plan.blocks, index) as int;
    let size = plan.blocks[index] as int;
    let first = base as int;
    lemma_next_offset(plan.blocks, index);
    lemma_mul_is_distributive_add_other_way(channels, first, length as int);
    lemma_mul_is_distributive_sub_other_way(channels, offset, first);
    lemma_mul_is_distributive_add_other_way(channels, offset, size);
    lemma_mul_inequality(offset + size, first + length, channels);
    lemma_mul_inequality(first, offset, channels);
    assert(first * channels >= 0 && length * channels >= 0 && size * channels >= 0)
        by (nonlinear_arith)
        requires
            first >= 0,
            length >= 0,
            size >= 0,
            channels >= 0,
    ;
    let chunk = samples.skip(first * channels).take(length * channels);
    assert(offset - 0 == offset);
    assert(samples_of_frame(plan, chunk, base, index) == samples_of_frame(plan, samples, 0, index));
}

proof fn lemma_frames_in_chunk(
    plan: PlanView,
    predictors: Seq<Vec<LpcPredictors>>,
    samples: Seq<i32>,
    length: nat,
    start: int,
    end: int,
)
    requires
        0 <= start <= end <= plan.blocks.len(),
        block_offset(plan.blocks, end) <= block_offset(plan.blocks, start) + length,
        (block_offset(plan.blocks, start) + length) * plan.spec.channels <= samples.len(),
    ensures
        ({
            let channels = plan.spec.channels as int;
            let base = block_offset(plan.blocks, start);
            let chunk = samples.skip(base * channels).take(length * channels);
            planned_frames(plan, chunk, base, predictors, start, end) == planned_frames(
                plan,
                samples,
                0,
                predictors,
                start,
                end,
            )
        }),
    decreases end - start,
{
    if start < end {
        lemma_offsets_grow(plan.blocks, start, end - 1);
        lemma_offsets_grow(plan.blocks, end - 1, end);
        lemma_frames_in_chunk(plan, predictors, samples, length, start, end - 1);
        lemma_frame_in_chunk(
            plan,
            samples,
            block_offset(plan.blocks, start),
            length,
            end - 1,
        );
    }
}

/// Frames that were encoded in two goes.
proof fn lemma_frames_concat(
    plan: PlanView,
    predictors: Seq<Vec<LpcPredictors>>,
    samples: Seq<i32>,
    start: int,
    middle: int,
    end: int,
    first: Seq<FrameView>,
    second: Seq<FrameView>,
)
    requires
        start <= middle <= end,
        planned_frames(plan, samples, 0, predictors, start, middle) == Ok::<
            Seq<FrameView>,
            ErrorView,
        >(first),
        planned_frames(plan, samples, 0, predictors, middle, end) == Ok::<
            Seq<FrameView>,
            ErrorView,
        >(second),
    ensures
        planned_frames(plan, samples, 0, predictors, start, end) == Ok::<
            Seq<FrameView>,
            ErrorView,
        >(first + second),
    decreases end - middle,
{
    if middle == end {
        assert(first + second == first);
    } else {
        let earlier = planned_frames(plan, samples, 0, predictors, middle, end - 1)->Ok_0;
        assert(second.drop_last() == earlier);
        lemma_frames_concat(
            plan,
            predictors,
            samples,
            start,
            middle,
            end - 1,
            first,
            second.drop_last(),
        );
        assert((first + second.drop_last()).push(second.last()) == first + second);
        assert(second.drop_last().push(second.last()) == second);
    }
}

proof fn lemma_session_is_plan(
    plan: PlanView,
    policy: EncodeChunkPolicy,
    predictors: Seq<Vec<LpcPredictors>>,
    samples: Seq<i32>,
    start: int,
)
    requires
        policy.max_frames >= 1,
        plan.spec.channels >= 1,
        0 <= start <= plan.blocks.len(),
        block_offset(plan.blocks, start) * plan.spec.channels <= samples.len(),
    ensures
        session_frames(plan, policy, predictors, samples, start) matches Ok(frames)
            ==> planned_frames(plan, samples, 0, predictors, start, plan.blocks.len() as int) == Ok::<
            Seq<FrameView>,
            ErrorView,
        >(frames),
    decreases plan.blocks.len() - start,
{
    let end = chunk_end(plan.blocks, start, start, policy);
    lemma_chunk_end(plan.blocks, start, start, policy);
    if start < plan.blocks.len() && session_frames(plan, policy, predictors, samples, start) is Ok {
        let channels = plan.spec.channels as int;
        let base = block_offset(plan.blocks, start);
        let length = chunk_length(plan, policy, start);
        let upcoming = samples.skip(base * channels);
        lemma_offsets_grow(plan.blocks, start, end);
        assert(base * channels >= 0) by (nonlinear_arith)
            requires
                base >= 0,
                channels >= 0,
        ;
        assert(length * channels <= upcoming.len()) by {
            if length * channels > upcoming.len() {
                vstd::arithmetic::div_mod::lemma_fundamental_div_mod(
                    upcoming.len() as int,
                    channels,
                );
                vstd::arithmetic::mul::lemma_mul_is_commutative(channels, length as int);
            }
        }
        lemma_mul_is_distributive_add_other_way(channels, base as int, length as int);
        lemma_frames_in_chunk(plan, predictors, samples, length, start, end);
        lemma_session_is_plan(plan, policy, predictors, samples, end);
        lemma_frames_concat(
            plan,
            predictors,
            samples,
            start,
            end,
            plan.blocks.len() as int,
            chunk_outcome(plan, policy, predictors, upcoming, start)->Ok_0,
            session_frames(plan, policy, predictors, samples, end)->Ok_0,
        );
    }
}

/// How a stream is cut into chunks does not matter: the frames are those of all samples
/// at once.
pub proof fn law_chunking_does_not_matter(
    plan: PlanView,
    policy: EncodeChunkPolicy,
    predictors: Seq<Vec<LpcPredictors>>,
    samples: Seq<i32>,
)
    requires
        policy.max_frames >= 1,
        plan.spec.channels >= 1,
    ensures
        session_frames(plan, policy, predictors, samples, 0) matches Ok(frames) ==> planned_frames(
            plan,
            samples,
            0,
            predictors,
            0,
            plan.blocks.len() as int,
        ) == Ok::<Seq<FrameView>, ErrorView>(frames),
{
    assert(plan.blocks.take(0) == Seq::<u16>::empty());
    assert(0 * (plan.spec.channels as int) == 0);
    lemma_session_is_plan(plan, policy, predictors, samples, 0);
}

/// A frame of a stream is what was planned for it.
pub proof fn lemma_frame_of_stream(
    plan: PlanView,
    predictors: Seq<Vec<LpcPredictors>>,
    samples: Seq<i32>,
    end: int,
    index: int,
)
    requires
        0 <= index < end,
    ensures
        planned_frames(plan, samples, 0, predictors, 0, end) matches Ok(frames)
            ==> planned_frame_bytes(plan, samples, 0, predictors, index) == Ok::<
            Seq<u8>,
            ErrorView,
        >(frames[index].bytes) && frames.len() == end,
    decreases end,
{
    if end == 1 {
        assert(planned_frames(plan, samples, 0, predictors, 0, 0) == Ok::<
            Seq<FrameView>,
            ErrorView,
        >(Seq::empty()));
    } else {
        lemma_frame_of_stream(
            plan,
            predictors,
            samples,
            end - 1,
            if index < end - 1 {
                index
            } else {
                0
            },
        );
    }
}

/// Encoding loses nothing: a reader of any frame of a stream gets the samples that the
/// plan puts into it, with the stream's rate and width and the frame's place.
pub proof fn law_streams_are_lossless(
    plan: PlanView,
    predictors: Seq<Vec<LpcPredictors>>,
    samples: Seq<i32>,
    index: int,
)
    requires
        0 <= index < plan.blocks.len(),
        plan.blocks[index] >= 1,
        plan.spec.channels >= 1,
        blocks_total(plan.blocks) * plan.spec.channels <= samples.len(),
        differences_fit(plan.spec, plan.effort, samples),
        all_predictors_are_valid(predictors),
    ensures
        planned_frames(
            plan,
            samples,
            0,
            predictors,
            0,
            plan.blocks.len() as int,
        ) matches Ok(frames) ==> {
            let frame = planned_frame(plan.blocks, plan.variable, index);
            &&& read_frame(frames[index].bytes) matches Some((header, subframes))
            &&& header.sample_rate == plan.spec.sample_rate
            &&& header.bits_per_sample == plan.spec.bits_per_sample
            &&& header.block_size == plan.blocks[index]
            &&& header.number == frame.coded_number
            &&& header.variable == plan.variable
            &&& frame_samples(
                AnalysisView {
                    block_size: header.block_size as u16,
                    channel_assignment: header.assignment,
                    subframes,
                },
            ) == ints(samples_of_frame(plan, samples, 0, index))
        },
{
    lemma_frame_of_stream(plan, predictors, samples, plan.blocks.len() as int, index);
    let channels = plan.spec.channels as int;
    let offset = block_offset(plan.blocks, index) as int;
    let size = plan.blocks[index] as int;
    let frame = planned_frame(plan.blocks, plan.variable, index);
    let part = samples_of_frame(plan, samples, 0, index);
    lemma_next_offset(plan.blocks, index);
    lemma_offsets_grow(plan.blocks, index + 1, plan.blocks.len() as int);
    lemma_mul_is_distributive_add_other_way(channels, offset, size);
    lemma_mul_inequality(offset + size, blocks_total(plan.blocks) as int, channels);
    assert(offset * channels >= 0 && size * channels >= 1) by (nonlinear_arith)
        requires
            offset >= 0,
            size >= 1,
            channels >= 1,
    ;
    if channels == 2 && plan.effort.use_mid_side_stereo {
        lemma_part_difference(samples, offset, size);
        assert(part == samples.subrange(offset * 2, offset * 2 + size * 2));
    }
    let found = predictors_of_frame(predictors, index);
    assert forall|i: int| 0 <= i < found.len() implies crate::subframe::predictors_are_valid(
        #[trigger] found[i]@,
    ) by {
        assert(found[i] == predictors[index]@[i]);
    }
    law_encoded_frame_reads_back(
        part,
        plan.spec.channels,
        plan.spec.bits_per_sample,
        plan.spec.sample_rate,
        header_number(frame.coded_number_kind, frame.coded_number),
        plan.effort,
        found,
        Seq::empty(),
        (StreamFormat { sample_rate: 0, bits_per_sample: 0 }),
    );
    assert(part.len() == size * channels);
    if planned_frames(plan, samples, 0, predictors, 0, plan.blocks.len() as int) is Ok {
        let frames = planned_frames(
            plan,
            samples,
            0,
            predictors,
            0,
            plan.blocks.len() as int,
        )->Ok_0;
        let bytes = frames[index].bytes;
        assert(bytes + Seq::<u8>::empty() == bytes);
        let header = read_frame(bytes).unwrap().0;
        assert(header.block_size == size) by (nonlinear_arith)
            requires
                header.block_size * channels == size * channels,
                channels >= 1,
        ;
    }
}

/// Success is owed: samples that fit their width, in one to eight channels and with a rate
/// and a width that frame headers can hold, are encoded.
pub proof fn law_valid_streams_encode(
    plan: PlanView,
    predictors: Seq<Vec<LpcPredictors>>,
    samples: Seq<i32>,
    end: int,
)
    requires
        0 <= end <= plan.blocks.len(),
        forall|i: int| 0 <= i < plan.blocks.len() ==> #[trigger] plan.blocks[i] >= 1,
        1 <= plan.spec.channels <= MAX_CHANNELS,
        blocks_total(plan.blocks) < 0x10_0000_0000,
        blocks_total(plan.blocks) * plan.spec.channels <= samples.len(),
        all_fit(samples, plan.spec.bits_per_sample as nat),
        bit_depth_code(plan.spec.bits_per_sample) is Some,
        plan.spec.bits_per_sample < 32 || plan.spec.channels != 2
            || !plan.effort.use_mid_side_stereo,
        sample_rate_field(plan.spec.sample_rate) is Some,
        all_predictors_are_valid(predictors),
    ensures
        planned_frames(plan, samples, 0, predictors, 0, end) is Ok,
        end <= block_offset(plan.blocks, end),
    decreases end,
{
    if end > 0 {
        let index = end - 1;
        law_valid_streams_encode(plan, predictors, samples, index);
        let channels = plan.spec.channels as int;
        let offset = block_offset(plan.blocks, index) as int;
        let size = plan.blocks[index] as int;
        let frame = planned_frame(plan.blocks, plan.variable, index);
        let part = samples_of_frame(plan, samples, 0, index);
        lemma_next_offset(plan.blocks, index);
        lemma_offsets_grow(plan.blocks, end, plan.blocks.len() as int);
        lemma_mul_is_distributive_add_other_way(channels, offset, size);
        lemma_mul_inequality(offset + size, blocks_total(plan.blocks) as int, channels);
        assert(offset * channels >= 0 && size * channels >= 1) by (nonlinear_arith)
            requires
                offset >= 0,
                size >= 1,
                channels >= 1,
        ;
        vstd::arithmetic::div_mod::lemma_div_by_multiple(size, channels);
        vstd::arithmetic::div_mod::lemma_mod_multiples_basic(size, channels);
        assert(part.len() == size * channels);
        assert forall|i: int| 0 <= i < part.len() implies crate::bits::fits_signed(
            #[trigger] part[i] as int,
            plan.spec.bits_per_sample as nat,
        ) by {
            assert(part[i] == samples[offset * channels + i]);
        }
        let found = predictors_of_frame(predictors, index);
        assert forall|i: int| 0 <= i < found.len() implies crate::subframe::predictors_are_valid(
            #[trigger] found[i]@,
        ) by {
            assert(found[i] == predictors[index]@[i]);
        }
        law_valid_frames_encode(
            part,
            plan.spec.channels,
            plan.spec.bits_per_sample,
            plan.spec.sample_rate,
            header_number(frame.coded_number_kind, frame.coded_number),
            plan.effort,
            found,
        );
    } else {
        assert(plan.blocks.take(0) == Seq::<u16>::empty());
    }
}

/// Where all frames up to a place are encoded, so are those behind another place.
proof fn lemma_later_frames(
    plan: PlanView,
    predictors: Seq<Vec<LpcPredictors>>,
    samples: Seq<i32>,
    start: int,
    end: int,
)
    requires
        0 <= start <= end,
        planned_frames(plan, samples, 0, predictors, 0, end) is Ok,
    ensures
        planned_frames(plan, samples, 0, predictors, start, end) is Ok,
    decreases end - start,
{
    if start < end {
        lemma_later_frames(plan, predictors, samples, start, end - 1);
    }
}

/// Samples that fit their width can be put into the frames of a plan and taken out again.
pub open spec fn session_is_faithful(
    plan: PlanView,
    predictors: Seq<Vec<LpcPredictors>>,
    samples: Seq<i32>,
) -> bool {
    &&& forall|i: int| 0 <= i < plan.blocks.len() ==> #[trigger] plan.blocks[i] >= 1
    &&& 1 <= plan.spec.channels <= MAX_CHANNELS
    &&& blocks_total(plan.blocks) * plan.spec.channels <= samples.len()
    &&& all_fit(samples, plan.spec.bits_per_sample as nat)
    &&& differences_fit(plan.spec, plan.effort, samples)
    &&& all_predictors_are_valid(predictors)
}

/// The samples of a session are there once all its frames are encoded.
pub proof fn lemma_session_has_samples(
    plan: PlanView,
    policy: EncodeChunkPolicy,
    predictors: Seq<Vec<LpcPredictors>>,
    samples: Seq<i32>,
    start: int,
)
    requires
        policy.max_frames >= 1,
        plan.spec.channels >= 1,
        0 <= start < plan.blocks.len(),
        block_offset(plan.blocks, start) * plan.spec.channels <= samples.len(),
        session_frames(plan, policy, predictors, samples, start) is Ok,
    ensures
        blocks_total(plan.blocks) * plan.spec.channels <= samples.len(),
    decreases plan.blocks.len() - start,
{
    let end = chunk_end(plan.blocks, start, start, policy);
    let channels = plan.spec.channels as int;
    let base = block_offset(plan.blocks, start);
    let length = chunk_length(plan, policy, start);
    lemma_chunk_end(plan.blocks, start, start, policy);
    lemma_offsets_grow(plan.blocks, start, end);
    lemma_mul_is_distributive_add_other_way(channels, base as int, length as int);
    assert(base * channels >= 0) by (nonlinear_arith)
        requires
            base >= 0,
            channels >= 1,
    ;
    let upcoming = samples.skip(base * channels);
    assert(chunk_failure(plan.spec, upcoming, length) is None);
    lemma_due_frames_are_there(upcoming.len(), channels as nat, length);
    if end < plan.blocks.len() {
        lemma_session_has_samples(plan, policy, predictors, samples, end);
    } else {
        assert(plan.blocks.take(end) == plan.blocks);
    }
}

/// All frames are due only where all their samples are there.
proof fn lemma_due_frames_are_there(samples: nat, channels: nat, frames: nat)
    requires
        channels >= 1,
        frames_due(samples, channels, frames) == frames,
    ensures
        frames * channels <= samples,
{
    let whole = samples / channels;
    lemma_fundamental_div_mod(samples as int, channels as int);
    lemma_mod_bound(samples as int, channels as int);
    if frames <= whole {
        lemma_mul_inequality(frames as int, whole as int, channels as int);
        lemma_mul_is_commutative(whole as int, channels as int);
    }
}

/// A session has what success takes.
pub open spec fn session_is_owed(
    plan: PlanView,
    predictors: Seq<Vec<LpcPredictors>>,
    samples: Seq<i32>,
) -> bool {
    &&& forall|i: int| 0 <= i < plan.blocks.len() ==> #[trigger] plan.blocks[i] >= 1
    &&& 1 <= plan.spec.channels <= MAX_CHANNELS
    &&& blocks_total(plan.blocks) < 0x10_0000_0000
    &&& blocks_total(plan.blocks) * plan.spec.channels <= samples.len()
    &&& blocks_total(plan.blocks) * plan.spec.channels <= usize::MAX
    &&& all_fit(samples, plan.spec.bits_per_sample as nat)
    &&& bit_depth_code(plan.spec.bits_per_sample) is Some
    &&& plan.spec.bits_per_sample < 32 || plan.spec.channels != 2
        || !plan.effort.use_mid_side_stereo
    &&& sample_rate_field(plan.spec.sample_rate) is Some
    &&& all_predictors_are_valid(predictors)
}

proof fn lemma_session_encodes(
    plan: PlanView,
    policy: EncodeChunkPolicy,
    predictors: Seq<Vec<LpcPredictors>>,
    samples: Seq<i32>,
    start: int,
)
    requires
        policy.max_frames >= 1,
        session_is_owed(plan, predictors, samples),
        0 <= start <= plan.blocks.len(),
    ensures
        session_frames(plan, policy, predictors, samples, start) is Ok,
    decreases plan.blocks.len() - start,
{
    if start < plan.blocks.len() {
        let end = chunk_end(plan.blocks, start, start, policy);
        lemma_chunk_end(plan.blocks, start, start, policy);
        let channels = plan.spec.channels as int;
        let base = block_offset(plan.blocks, start);
        let length = chunk_length(plan, policy, start);
        let total = blocks_total(plan.blocks);
        lemma_offsets_grow(plan.blocks, start, end);
        lemma_offsets_grow(plan.blocks, end, plan.blocks.len() as int);
        assert(base + length <= total);
        lemma_mul_is_distributive_add_other_way(channels, base as int, length as int);
        lemma_mul_inequality((base + length) as int, total as int, channels);
        assert(base * channels >= 0 && length * channels >= 0) by (nonlinear_arith)
            requires
                base >= 0,
                length >= 0,
                channels >= 1,
        ;
        let upcoming = samples.skip(base * channels);
        let chunk = upcoming.take(length * channels);
        let width = plan.spec.bits_per_sample as nat;
        assert forall|i: int| 0 <= i < chunk.len() implies crate::bits::fits_signed(
            #[trigger] chunk[i] as int,
            width,
        ) by {
            assert(chunk[i] == samples[base * channels + i]);
        }
        lemma_fitting_samples_are_stored(chunk, digest_envelope(plan.spec), ByteOrder::Little);
        lemma_frames_in_chunk(plan, predictors, samples, length, start, end);
        law_valid_streams_encode(plan, predictors, samples, end);
        lemma_later_frames(plan, predictors, samples, start, end);
        lemma_session_encodes(plan, policy, predictors, samples, end);
    }
}

/// Success is owed to a whole session, however it is cut into chunks.
pub proof fn law_valid_sessions_encode(
    plan: PlanView,
    policy: EncodeChunkPolicy,
    predictors: Seq<Vec<LpcPredictors>>,
    samples: Seq<i32>,
)
    requires
        policy.max_frames >= 1,
        session_is_owed(plan, predictors, samples),
    ensures
        session_frames(plan, policy, predictors, samples, 0) is Ok,
{
    lemma_session_encodes(plan, policy, predictors, samples, 0);
}

} // verus!
