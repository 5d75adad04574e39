//! Encoding the planned frames of a chunk, and putting chunks back in order.

use vstd::arithmetic::mul::{lemma_mul_inequality, lemma_mul_is_distributive_add_other_way};
use vstd::prelude::*;
use vstd::slice::slice_subrange;

use crate::error::{ErrorView, Result};
use crate::frame::{channel_of, difference_fits, encode_numbered_frame, encoded_frame, EncodedFrame};
use crate::level::LevelProfile;
use crate::pcm::PcmSpec;
use crate::plan::{block_offset, frame_header_number, header_number, lemma_next_offset, lemma_offsets_grow, planned_frame, EncodePlan, PlanView};
use crate::subframe::{predictors_are_valid, LpcPredictors};

verus! {

/// The contents of an [`EncodedFrame`].
pub struct FrameView {
    pub bytes: Seq<u8>,
    pub sample_count: u16,
}

/// The contents of frames.
pub open spec fn frame_views(frames: Seq<EncodedFrame>) -> Seq<FrameView> {
    frames.map_values(
        |frame: EncodedFrame| FrameView { bytes: frame.bytes@, sample_count: frame.sample_count },
    )
}

/// Frames that follow one another.
#[derive(Debug, Clone)]
pub struct EncodedChunk {
    /// The place of the first frame in the stream.
    pub start_frame: usize,
    pub frames: Vec<EncodedFrame>,
}

/// The predictors that were estimated for a frame.
pub open spec fn predictors_of_frame(predictors: Seq<Vec<LpcPredictors>>, index: int) -> Seq<
    LpcPredictors,
> {
    if 0 <= index < predictors.len() {
        predictors[index]@
    } else {
        Seq::empty()
    }
}

/// All predictors are valid.
pub open spec fn all_predictors_are_valid(predictors: Seq<Vec<LpcPredictors>>) -> bool {
    forall|i: int, j: int|
        0 <= i < predictors.len() && 0 <= j < predictors[i]@.len() ==> predictors_are_valid(
            #[trigger] predictors[i]@[j]@,
        )
}

/// The samples of a planned frame, out of samples that start `base` samples per
/// channel into the stream.
pub open spec fn samples_of_frame(plan: PlanView, samples: Seq<i32>, base: nat, index: int) -> Seq<
    i32,
> {
    let channels = plan.spec.channels as int;
    let start = (block_offset(plan.blocks, index) - base) * channels;
    samples.subrange(start, start + plan.blocks[index] * channels)
}

/// A planned frame.
pub open spec fn planned_frame_bytes(
    plan: PlanView,
    samples: Seq<i32>,
    base: nat,
    predictors: Seq<Vec<LpcPredictors>>,
    index: int,
) -> std::result::Result<Seq<u8>, ErrorView> {
    let frame = planned_frame(plan.blocks, plan.variable, index);
    encoded_frame(
        samples_of_frame(plan, samples, base, index),
        plan.spec.channels,
        plan.spec.bits_per_sample,
        plan.spec.sample_rate,
        header_number(frame.coded_number_kind, frame.coded_number),
        plan.effort,
        predictors_of_frame(predictors, index),
    )
}

/// The planned frames from `start` to `end`, or why one of them cannot be encoded.
pub open spec fn planned_frames(
    plan: PlanView,
    samples: Seq<i32>,
    base: nat,
    predictors: Seq<Vec<LpcPredictors>>,
    start: int,
    end: int,
) -> std::result::Result<Seq<FrameView>, ErrorView>
    decreases end - start,
{
    if end <= start {
        Ok(Seq::empty())
    } else {
        match planned_frames(plan, samples, base, predictors, start, end - 1) {
            Err(error) => Err(error),
            Ok(earlier) => match planned_frame_bytes(plan, samples, base, predictors, end - 1) {
                Err(error) => Err(error),
                Ok(bytes) => Ok(
                    earlier.push(FrameView { bytes, sample_count: plan.blocks[end - 1] }),
                ),
            },
        }
    }
}

/// The samples of all planned frames from `start` to `end` are there.
pub open spec fn holds_frames(plan: PlanView, samples: nat, base: nat, start: int, end: int) -> bool {
    &&& base <= block_offset(plan.blocks, start)
    &&& (block_offset(plan.blocks, end) - base) * plan.spec.channels <= samples
}

/// Left and right samples are close enough where their difference is taken.
pub open spec fn differences_fit(spec: PcmSpec, effort: LevelProfile, samples: Seq<i32>) -> bool {
    spec.channels == 2 && effort.use_mid_side_stereo ==> difference_fits(samples)
}

/// A part of stereo samples keeps what holds of all.
pub proof fn lemma_part_difference(samples: Seq<i32>, start: int, frames: int)
    requires
        difference_fits(samples),
        0 <= start,
        0 <= frames,
        start * 2 + frames * 2 <= samples.len(),
    ensures
        difference_fits(samples.subrange(start * 2, start * 2 + frames * 2)),
{
    let part = samples.subrange(start * 2, start * 2 + frames * 2);
    assert forall|i: int| 0 <= i < part.len() / 2 implies i32::MIN <= #[trigger] channel_of(
        part,
        2,
        0,
    )[i] - channel_of(part, 2, 1)[i] <= i32::MAX by {
        assert(channel_of(part, 2, 0)[i] == channel_of(samples, 2, 0)[start + i]);
        assert(channel_of(part, 2, 1)[i] == channel_of(samples, 2, 1)[start + i]);
    }
}

proof fn lemma_frames_failure(
    plan: PlanView,
    samples: Seq<i32>,
    base: nat,
    predictors: Seq<Vec<LpcPredictors>>,
    start: int,
    middle: int,
    end: int,
)
    requires
        start <= middle <= end,
        planned_frames(plan, samples, base, predictors, start, middle) is Err,
    ensures
        planned_frames(plan, samples, base, predictors, start, end) == planned_frames(
            plan,
            samples,
            base,
            predictors,
            start,
            middle,
        ),
    decreases end - middle,
{
    if middle < end {
        lemma_frames_failure(plan, samples, base, predictors, start, middle, end - 1);
    }
}

/// Frames are as many as planned.
pub proof fn lemma_frame_count(
    plan: PlanView,
    samples: Seq<i32>,
    base: nat,
    predictors: Seq<Vec<LpcPredictors>>,
    start: int,
    end: int,
)
    requires
        start <= end,
    ensures
        planned_frames(plan, samples, base, predictors, start, end) matches Ok(frames)
            ==> frames.len() == end - start && forall|i: int|
            0 <= i < frames.len() ==> (#[trigger] frames[i]).sample_count == plan.blocks[start + i],
    decreases end - start,
{
    if start < end {
        lemma_frame_count(plan, samples, base, predictors, start, end - 1);
    }
}

/// Encodes one planned frame.
fn encode_planned_frame(
    samples: &[i32],
    plan: &EncodePlan,
    frame_index: usize,
    chunk_base_sample: u64,
    predictors: &[Vec<LpcPredictors>],
) -> (frame: Result<EncodedFrame>)
    requires
        plan.is_valid(),
        frame_index < plan.blocks().len(),
        all_predictors_are_valid(predictors@),
        differences_fit(plan@.spec, plan@.effort, samples@),
        holds_frames(
            plan@,
            samples@.len(),
            chunk_base_sample as nat,
            frame_index as int,
            frame_index + 1,
        ),
    ensures
        match planned_frame_bytes(
            plan@,
            samples@,
            chunk_base_sample as nat,
            predictors@,
            frame_index as int,
        ) {
            Ok(expected) => frame matches Ok(encoded) && encoded.bytes@ == expected
                && encoded.sample_count == plan@.blocks[frame_index as int],
            Err(expected) => frame matches Err(error) && error@ == expected,
        },
{
    let spec = plan.spec();
    let frame_plan = plan.frame(frame_index);
    let profile = plan.profile();
    let channels: usize = spec.channels as usize;
    let ghost index = frame_index as int;
    let ghost base = chunk_base_sample as nat;
    let ghost offset = block_offset(plan@.blocks, index) - base;
    let ghost size = plan@.blocks[index] as int;
    proof {
        plan.lemma_description();
        lemma_next_offset(plan@.blocks, index);
        lemma_offsets_grow(plan@.blocks, index, plan@.blocks.len() as int);
        lemma_mul_is_distributive_add_other_way(channels as int, offset, size);
        assert(offset * channels >= 0) by (nonlinear_arith)
            requires
                offset >= 0,
                channels >= 0,
        ;
        assert(offset <= offset * channels) by (nonlinear_arith)
            requires
                offset >= 0,
                channels >= 1,
        ;
        assert(size * channels >= 1) by (nonlinear_arith)
            requires
                size >= 1,
                channels >= 1,
        ;
        assert(samples.len() == samples@.len());
    }
    let local_frames: usize = (frame_plan.sample_offset - chunk_base_sample) as usize;
    let start: usize = local_frames * channels;
    let end: usize = start + frame_plan.block_size as usize * channels;
    let part = slice_subrange(samples, start, end);
    proof {
        assert(part@ == samples_of_frame(plan@, samples@, base, index));
        if channels == 2 && profile.use_mid_side_stereo {
            lemma_part_difference(samples@, offset, size);
        }
        assert(part@.len() == size * channels);
        vstd::arithmetic::div_mod::lemma_div_by_multiple(size, channels as int);
    }
    let number = frame_header_number(frame_plan.coded_number_kind, frame_plan.coded_number);
    if frame_index < predictors.len() {
        assert forall|j: int|
            0 <= j < predictors@[index]@.len() implies predictors_are_valid(
            #[trigger] predictors@[index]@[j]@,
        ) by {}
        encode_numbered_frame(
            part,
            spec.channels,
            spec.bits_per_sample,
            spec.sample_rate,
            number,
            profile,
            predictors[frame_index].as_slice(),
        )
    } else {
        let none: Vec<LpcPredictors> = Vec::new();
        assert(none@ == Seq::<LpcPredictors>::empty());
        encode_numbered_frame(
            part,
            spec.channels,
            spec.bits_per_sample,
            spec.sample_rate,
            number,
            profile,
            none.as_slice(),
        )
    }
}

/// Encodes planned frames out of the samples of a chunk.
pub fn encode_frame_batch(
    samples: &[i32],
    plan: &EncodePlan,
    chunk_start: usize,
    local_start: usize,
    local_end: usize,
    chunk_base_sample: u64,
    predictors: &[Vec<LpcPredictors>],
) -> (chunk: Result<EncodedChunk>)
    requires
        plan.is_valid(),
        local_start <= local_end,
        chunk_start + local_end <= plan.blocks().len(),
        all_predictors_are_valid(predictors@),
        differences_fit(plan@.spec, plan@.effort, samples@),
        holds_frames(
            plan@,
            samples@.len(),
            chunk_base_sample as nat,
            chunk_start + local_start,
            chunk_start + local_end,
        ),
    ensures
        match planned_frames(
            plan@,
            samples@,
            chunk_base_sample as nat,
            predictors@,
            chunk_start + local_start,
            chunk_start + local_end,
        ) {
            Ok(expected) => chunk matches Ok(found) && found.start_frame == chunk_start
                + local_start && frame_views(found.frames@) == expected,
            Err(expected) => chunk matches Err(error) && error@ == expected,
        },
{
    let total: usize = plan.total_frames();
    let ghost base = chunk_base_sample as nat;
    let ghost first = chunk_start + local_start;
    let ghost last = chunk_start + local_end;
    let mut frames: Vec<EncodedFrame> = Vec::new();
    let mut local_frame: usize = local_start;
    assert(frame_views(frames@) == Seq::<FrameView>::empty());
    while local_frame < local_end
        invariant
            plan.is_valid(),
            local_start <= local_frame <= local_end,
            chunk_start + local_end <= plan.blocks().len(),
            total == plan.blocks().len(),
            all_predictors_are_valid(predictors@),
            differences_fit(plan@.spec, plan@.effort, samples@),
            base == chunk_base_sample,
            first == chunk_start + local_start,
            last == chunk_start + local_end,
            holds_frames(plan@, samples@.len(), base, first, last),
            planned_frames(
                plan@,
                samples@,
                base,
                predictors@,
                first,
                chunk_start + local_frame,
            ) == Ok::<Seq<FrameView>, ErrorView>(frame_views(frames@)),
        decreases local_end - local_frame,
    {
        let frame_index: usize = chunk_start + local_frame;
        proof {
            lemma_offsets_grow(plan@.blocks, first, frame_index as int);
            lemma_offsets_grow(plan@.blocks, frame_index + 1, last);
            lemma_mul_inequality(
                block_offset(plan@.blocks, frame_index + 1) - base,
                block_offset(plan@.blocks, last) - base,
                plan@.spec.channels as int,
            );
        }
        match encode_planned_frame(samples, plan, frame_index, chunk_base_sample, predictors) {
            Ok(frame) => {
                let ghost before = frames@;
                let ghost view = FrameView { bytes: frame.bytes@, sample_count: frame.sample_count };
                frames.push(frame);
                assert(frame_views(frames@) == frame_views(before).push(view));
            },
            Err(error) => {
                proof {
                    lemma_frames_failure(
                        plan@,
                        samples@,
                        base,
                        predictors@,
                        first,
                        frame_index + 1,
                        last,
                    );
                }
                return Err(error);
            },
        }
        local_frame = local_frame + 1;
    }
    Ok(EncodedChunk { start_frame: chunk_start + local_start, frames })
}

/// Encodes the planned frames of a chunk.
pub fn encode_chunk(
    plan: &EncodePlan,
    chunk_start: usize,
    chunk_end: usize,
    chunk_samples: &[i32],
    predictors: &[Vec<LpcPredictors>],
) -> (chunk: Result<EncodedChunk>)
    requires
        plan.is_valid(),
        chunk_start < chunk_end <= plan.blocks().len(),
        all_predictors_are_valid(predictors@),
        differences_fit(plan@.spec, plan@.effort, chunk_samples@),
        holds_frames(
            plan@,
            chunk_samples@.len(),
            block_offset(plan@.blocks, chunk_start as int),
            chunk_start as int,
            chunk_end as int,
        ),
    ensures
        match planned_frames(
            plan@,
            chunk_samples@,
            block_offset(plan@.blocks, chunk_start as int),
            predictors@,
            chunk_start as int,
            chunk_end as int,
        ) {
            Ok(expected) => chunk matches Ok(found) && found.start_frame == chunk_start
                && frame_views(found.frames@) == expected,
            Err(expected) => chunk matches Err(error) && error@ == expected,
        },
{
    let base: u64 = plan.frame(chunk_start).sample_offset;
    proof {
        plan.lemma_description();
        lemma_offsets_grow(plan@.blocks, chunk_start as int, plan@.blocks.len() as int);
    }
    encode_frame_batch(
        chunk_samples,
        plan,
        chunk_start,
        0,
        chunk_end - chunk_start,
        base,
        predictors,
    )
}

} // verus!
