//! Encoding a stream of samples chunk by chunk.

use vstd::arithmetic::mul::lemma_mul_is_distributive_add_other_way;
use vstd::prelude::*;
use vstd::string::*;

use crate::encode_frames::{differences_fit, frame_views, lemma_part_difference, planned_frames, EncodedChunk, FrameView};
use crate::error::{failure_is_told, Error, ErrorView, Result};
use crate::flac_writer::{FlacWriter, STREAMINFO_LENGTH};
use crate::md5::{digest_envelope, StreaminfoMd5};
use crate::pcm::{encoded_sample, encoded_samples, ByteOrder, PcmSpec};
use crate::plan::{block_offset, blocks_total, lemma_next_offset, lemma_offsets_grow, EncodePlan, PlanView};
use crate::progress::{refusal_is_told, ProgressSink, ProgressSnapshot};
use crate::stream::{frames_due, handed_out, pcm_bytes_for_samples, stored_bytes, EncodePcmStream};
use crate::stream_info::{with_frame_size, StreamInfo};
use crate::subframe::LpcPredictors;
use crate::text::{append_decimal, decimal, numbered};

verus! {

/// The number of FLAC frames that a chunk holds at most.
pub const ENCODE_CHUNK_MAX_FRAMES: usize = 256;

/// The number of PCM frames that a chunk of several FLAC frames holds at most.
pub const ENCODE_CHUNK_TARGET_PCM_FRAMES: usize = 1_048_576;

/// How large a chunk gets.
#[derive(Debug, Clone, Copy, PartialEq, Eq, Structural)]
pub struct EncodeChunkPolicy {
    pub max_frames: usize,
    pub target_pcm_frames: usize,
}

/// A chunk takes in one more block.
pub open spec fn chunk_grows(
    blocks: Seq<u16>,
    start: int,
    end: int,
    policy: EncodeChunkPolicy,
) -> bool {
    &&& end < blocks.len()
    &&& end - start < policy.max_frames
    &&& end == start || block_offset(blocks, end + 1) - block_offset(blocks, start)
        <= policy.target_pcm_frames
}

/// The end of a chunk that holds the blocks from `start` to `end` already.
pub open spec fn chunk_end(blocks: Seq<u16>, start: int, end: int, policy: EncodeChunkPolicy) -> int
    decreases blocks.len() - end,
{
    if chunk_grows(blocks, start, end, policy) {
        chunk_end(blocks, start, end + 1, policy)
    } else {
        end
    }
}

/// A chunk holds at least one frame, and no more than can be addressed.
pub proof fn lemma_chunk_end(blocks: Seq<u16>, start: int, end: int, policy: EncodeChunkPolicy)
    requires
        0 <= start <= end <= blocks.len(),
        end == start || end == start + 1 || block_offset(blocks, end) - block_offset(blocks, start)
            <= policy.target_pcm_frames,
    ensures
        end <= chunk_end(blocks, start, end, policy) <= blocks.len(),
        start < blocks.len() && policy.max_frames >= 1 ==> start < chunk_end(
            blocks,
            start,
            end,
            policy,
        ),
        block_offset(blocks, chunk_end(blocks, start, end, policy)) - block_offset(blocks, start)
            <= usize::MAX,
    decreases blocks.len() - end,
{
    if chunk_grows(blocks, start, end, policy) {
        lemma_chunk_end(blocks, start, end + 1, policy);
    } else if end == start + 1 {
        lemma_next_offset(blocks, start);
    }
}

/// The end of the chunk that starts at a frame.
pub fn chunk_end_for_plan(plan: &EncodePlan, chunk_start: usize, chunk_policy: EncodeChunkPolicy)
    -> (end: usize)
    requires
        plan.is_valid(),
        chunk_start <= plan.blocks().len(),
    ensures
        end == chunk_end(plan.blocks(), chunk_start as int, chunk_start as int, chunk_policy),
        chunk_start <= end <= plan.blocks().len(),
        chunk_start < plan.blocks().len() && chunk_policy.max_frames >= 1 ==> chunk_start < end,
        block_offset(plan.blocks(), end as int) - block_offset(plan.blocks(), chunk_start as int)
            <= usize::MAX,
{
    let total_frames: usize = plan.total_frames();
    let ghost blocks = plan.blocks();
    proof {
        lemma_chunk_end(blocks, chunk_start as int, chunk_start as int, chunk_policy);
        plan.lemma_description();
    }
    let mut chunk_end_frame: usize = chunk_start;
    let mut pcm_frames: u64 = 0;
    loop
        invariant
            plan.is_valid(),
            blocks == plan.blocks(),
            total_frames == blocks.len(),
            blocks_total(blocks) < 0x10_0000_0000,
            chunk_start <= chunk_end_frame <= blocks.len(),
            pcm_frames == block_offset(blocks, chunk_end_frame as int) - block_offset(
                blocks,
                chunk_start as int,
            ),
            chunk_end(blocks, chunk_start as int, chunk_end_frame as int, chunk_policy) == chunk_end(
                blocks,
                chunk_start as int,
                chunk_start as int,
                chunk_policy,
            ),
        ensures
            chunk_end_frame == chunk_end(
                blocks,
                chunk_start as int,
                chunk_start as int,
                chunk_policy,
            ),
        decreases total_frames - chunk_end_frame,
    {
        if !(chunk_end_frame < total_frames && chunk_end_frame - chunk_start
            < chunk_policy.max_frames) {
            break ;
        }
        proof {
            lemma_next_offset(blocks, chunk_end_frame as int);
            lemma_offsets_grow(blocks, chunk_end_frame + 1, blocks.len() as int);
        }
        let next_block_size: u64 = plan.frame(chunk_end_frame).block_size as u64;
        if chunk_end_frame > chunk_start && pcm_frames + next_block_size
            > chunk_policy.target_pcm_frames as u64 {
            break ;
        }
        pcm_frames = pcm_frames + next_block_size;
        chunk_end_frame = chunk_end_frame + 1;
    }
    chunk_end_frame
}

/// The PCM frames of the FLAC frames from `chunk_start` to `chunk_end`.
pub fn expected_frames_for_chunk(plan: &EncodePlan, chunk_start: usize, chunk_end: usize) -> (frames:
    usize)
    requires
        plan.is_valid(),
        chunk_start <= chunk_end <= plan.blocks().len(),
        block_offset(plan.blocks(), chunk_end as int) - block_offset(
            plan.blocks(),
            chunk_start as int,
        ) <= usize::MAX,
    ensures
        frames == block_offset(plan.blocks(), chunk_end as int) - block_offset(
            plan.blocks(),
            chunk_start as int,
        ),
{
    let ghost blocks = plan.blocks();
    let mut frames: usize = 0;
    let mut index: usize = chunk_start;
    while index < chunk_end
        invariant
            plan.is_valid(),
            blocks == plan.blocks(),
            chunk_start <= index <= chunk_end <= blocks.len(),
            block_offset(blocks, chunk_end as int) - block_offset(blocks, chunk_start as int)
                <= usize::MAX,
            frames == block_offset(blocks, index as int) - block_offset(blocks, chunk_start as int),
        decreases chunk_end - index,
    {
        proof {
            lemma_next_offset(blocks, index as int);
            lemma_offsets_grow(blocks, index + 1, chunk_end as int);
        }
        frames = frames + plan.frame(index).block_size as usize;
        index = index + 1;
    }
    frames
}

/// The error of a stream that ends before its samples are read.
pub open spec fn ended_early(expected: nat, read: nat) -> ErrorView {
    ErrorView::Encode(
        "PCM stream ended early: expected "@ + decimal(expected) + " frames, read "@ + decimal(read),
    )
}

/// Why the next frames of a stream cannot be taken in, if they cannot.
pub open spec fn chunk_failure(spec: PcmSpec, upcoming: Seq<i32>, frames: nat) -> Option<ErrorView> {
    let channels = spec.channels as nat;
    if frames * channels > usize::MAX {
        Some(ErrorView::Encode("PCM chunk sample count overflows"@))
    } else if frames_due(upcoming.len(), channels, frames) != frames {
        Some(ended_early(frames, frames_due(upcoming.len(), channels, frames)))
    } else {
        match encoded_samples(
            upcoming.take((frames * channels) as int),
            digest_envelope(spec),
            ByteOrder::Little,
        ) {
            Err(error) => Some(error),
            Ok(_) => None,
        }
    }
}

/// An error says that a stream ended early.
pub open spec fn is_ended_early(error: ErrorView) -> bool {
    exists|expected: nat, read: nat| error == #[trigger] ended_early(expected, read)
}

/// The error of frames that cannot be encoded; where they are not all there, it is that of
/// the read that failed.
pub open spec fn is_failure_of_broken(failure: ErrorView, broken: ErrorView, found: ErrorView) -> bool {
    found == failure || (found == broken && is_ended_early(failure))
}

/// Frames that are not all there are not all due.
proof fn lemma_div_is_less(samples: nat, channels: nat, frames: nat)
    requires
        channels >= 1,
        frames * channels > samples,
    ensures
        samples / channels < frames,
{
    if samples / channels >= frames {
        vstd::arithmetic::div_mod::lemma_fundamental_div_mod(samples as int, channels as int);
        vstd::arithmetic::mul::lemma_mul_inequality(
            frames as int,
            (samples / channels) as int,
            channels as int,
        );
        vstd::arithmetic::mul::lemma_mul_is_commutative(
            channels as int,
            (samples / channels) as int,
        );
    }
}

/// Reads the samples of planned frames, and adds them to the digest of the stream.
pub fn read_planned_chunk<S: EncodePcmStream>(
    stream: &mut S,
    plan: &EncodePlan,
    chunk_start: usize,
    chunk_end: usize,
    md5: &mut StreaminfoMd5,
    chunk_samples: &mut Vec<i32>,
) -> (result: Result<()>)
    requires
        old(stream).is_valid(),
        old(stream).description() == plan.description(),
        plan.is_valid(),
        chunk_start <= chunk_end <= plan.blocks().len(),
        block_offset(plan.blocks(), chunk_end as int) - block_offset(
            plan.blocks(),
            chunk_start as int,
        ) <= usize::MAX,
        old(md5).is_valid(),
        old(md5).layout() == digest_envelope(plan.description()),
        old(md5).digested().len() <= 0x1000_0000_0000,
    ensures
        failure_is_told(old(stream).failed(), final(stream).failed(), result),
        final(stream).is_valid(),
        final(stream).description() == old(stream).description(),
        final(stream).chunk_wishes() == old(stream).chunk_wishes(),
        final(md5).is_valid(),
        final(md5).layout() == old(md5).layout(),
        ({
            let frames = (block_offset(plan.blocks(), chunk_end as int) - block_offset(
                plan.blocks(),
                chunk_start as int,
            )) as nat;
            let upcoming = old(stream).upcoming();
            let failure = chunk_failure(plan.description(), upcoming, frames);
            let count = (frames * plan.description().channels) as int;
            &&& old(stream).delivers() ==> final(stream).delivers() && match failure {
                Some(expected) => result matches Err(error) && error@ == expected,
                None => result is Ok,
            }
            &&& old(stream).breaks_off() matches Some(broken) ==> match failure {
                Some(expected) => result matches Err(error) && is_failure_of_broken(
                    expected,
                    broken,
                    error@,
                ),
                None => result is Ok && final(stream).breaks_off() == Some(broken),
            }
            &&& result is Ok ==> {
                &&& failure is None
                &&& chunk_samples_read(
                    *final(chunk_samples),
                    upcoming,
                    final(stream).upcoming(),
                    count,
                )
                &&& encoded_samples(
                    upcoming.take(count),
                    old(md5).layout(),
                    ByteOrder::Little,
                ) matches Ok(bytes) && final(md5).digested() == old(md5).digested() + bytes
            }
        }),
{
    proof {
        plan.lemma_description();
        lemma_offsets_grow(plan.blocks(), chunk_end as int, plan.blocks().len() as int);
    }
    let spec = plan.spec();
    let channels: usize = spec.channels as usize;
    let expected_frames: usize = expected_frames_for_chunk(plan, chunk_start, chunk_end);
    let expected_samples: usize = match expected_frames.checked_mul(channels) {
        Some(samples) => samples,
        None => return Err(Error::Encode("PCM chunk sample count overflows".to_owned())),
    };
    let ghost upcoming = stream.upcoming();
    let ghost frames = expected_frames as nat;
    let ghost count = (frames * channels) as int;
    chunk_samples.clear();
    let ghost cleared = chunk_samples@;
    let read_frames: usize = match stream.read_chunk(expected_frames, chunk_samples) {
        Ok(read) => read,
        Err(error) => {
            proof {
                if old(stream).breaks_off() is Some {
                    let due = frames_due(upcoming.len(), channels as nat, frames);
                    lemma_div_is_less(upcoming.len(), channels as nat, frames);
                    assert(chunk_failure(plan.description(), upcoming, frames) == Some(
                        ended_early(frames, due),
                    ));
                }
            }
            return Err(error);
        },
    };
    let ghost read = choose|samples: Seq<i32>|
        #![trigger cleared + samples]
        chunk_samples@ == cleared + samples && handed_out(
            upcoming,
            stream.upcoming(),
            channels as nat,
            read_frames as nat,
            samples,
        );
    assert(chunk_samples@ == read);
    if read_frames != expected_frames {
        let mut text = numbered(
            "PCM stream ended early: expected ",
            expected_frames as u64,
            " frames, read ",
        );
        append_decimal(&mut text, read_frames as u64);
        return Err(Error::Encode(text));
    }
    if chunk_samples.len() != expected_samples {
        let mut text = numbered("PCM stream yielded ", chunk_samples.len() as u64, " samples for ");
        append_decimal(&mut text, expected_frames as u64);
        text.append(" frames across ");
        append_decimal(&mut text, channels as u64);
        text.append(" channels");
        return Err(Error::Encode(text));
    }
    proof {
        assert(frames_due(upcoming.len(), channels as nat, frames) == frames);
        assert(count <= 0x10_0000_0000 * 8) by (nonlinear_arith)
            requires
                count == frames * channels,
                frames < 0x10_0000_0000,
                channels <= 8,
        ;
    }
    stream.update_streaminfo_md5(md5, chunk_samples.as_slice())
}

/// The samples of a chunk are the next of a stream.
pub open spec fn chunk_samples_read(
    chunk: Vec<i32>,
    before: Seq<i32>,
    after: Seq<i32>,
    count: int,
) -> bool {
    &&& count <= before.len()
    &&& chunk@ == before.take(count)
    &&& after == before.skip(count)
}

/// The bytes of frames, one after the other.
pub open spec fn joined_frames(frames: Seq<FrameView>) -> Seq<u8>
    decreases frames.len(),
{
    if frames.len() == 0 {
        Seq::empty()
    } else {
        joined_frames(frames.drop_last()) + frames.last().bytes
    }
}

/// What is known of a stream after frames.
pub open spec fn info_after(info: StreamInfo, frames: Seq<FrameView>) -> StreamInfo
    decreases frames.len(),
{
    if frames.len() == 0 {
        info
    } else {
        with_frame_size(
            info_after(info, frames.drop_last()),
            frames.last().bytes.len() as u32,
        )
    }
}

/// The samples per channel of frames.
pub open spec fn samples_in(frames: Seq<FrameView>) -> nat
    decreases frames.len(),
{
    if frames.len() == 0 {
        0
    } else {
        samples_in(frames.drop_last()) + frames.last().sample_count as nat
    }
}

/// What is told after each of some frames, the first of which has the given place and
/// stands behind `written` bytes.
pub open spec fn snapshots_of(
    frames: Seq<FrameView>,
    processed: nat,
    spec: PcmSpec,
    first: nat,
    total_frames: usize,
    written: nat,
) -> Seq<ProgressSnapshot> {
    Seq::new(
        frames.len(),
        |i: int|
            ProgressSnapshot {
                processed_samples: (processed + samples_in(frames.take(i + 1))) as u64,
                total_samples: spec.total_samples,
                completed_frames: (first + i + 1) as usize,
                total_frames,
                input_bytes_read: stored_bytes(
                    spec,
                    processed + samples_in(frames.take(i + 1)),
                ) as u64,
                output_bytes_written: (written + joined_frames(
                    frames.take(i + 1),
                ).len()) as u64,
            },
    )
}

/// Some of the frames were written, and each of them was told of.
pub open spec fn is_partly_written(
    frames: Seq<FrameView>,
    count: int,
    processed: nat,
    spec: PcmSpec,
    first: nat,
    total_frames: usize,
    writers: (FlacWriter, FlacWriter),
    told: (Seq<ProgressSnapshot>, Seq<ProgressSnapshot>),
) -> bool {
    &&& 0 <= count <= frames.len()
    &&& writers.1.after() == writers.0.after() + joined_frames(frames.take(count))
    &&& told.1 == told.0 + snapshots_of(
        frames.take(count),
        processed,
        spec,
        first,
        total_frames,
        writers.0.written(),
    )
}

/// Frames were written and told of up to some place.
pub open spec fn is_cut_off(
    frames: Seq<FrameView>,
    processed: nat,
    spec: PcmSpec,
    first: nat,
    total_frames: usize,
    writers: (FlacWriter, FlacWriter),
    told: (Seq<ProgressSnapshot>, Seq<ProgressSnapshot>),
) -> bool {
    exists|count: int| #[trigger]
        is_partly_written(
            frames,
            count,
            processed,
            spec,
            first,
            total_frames,
            writers,
            told,
        )
}

proof fn lemma_samples_grow(frames: Seq<FrameView>, count: int)
    requires
        0 <= count <= frames.len(),
    ensures
        samples_in(frames.take(count)) <= samples_in(frames),
    decreases frames.len(),
{
    if count < frames.len() {
        lemma_samples_grow(frames.drop_last(), count);
        assert(frames.drop_last().take(count) == frames.take(count));
    } else {
        assert(frames.take(count) == frames);
    }
}

/// Writes the frames of a chunk and tells of each. It returns the samples per channel
/// written so far.
pub fn write_encoded_chunk<P: ProgressSink>(
    writer: &mut FlacWriter,
    chunk: &EncodedChunk,
    processed_samples: u64,
    spec: PcmSpec,
    total_frames: usize,
    progress: &mut P,
) -> (processed: Result<u64>)
    requires
        old(writer).is_valid(),
        processed_samples + samples_in(frame_views(chunk.frames@)) <= u64::MAX,
        chunk.start_frame + chunk.frames@.len() <= usize::MAX,
    ensures
        refusal_is_told(*old(progress), *final(progress), processed),
        final(writer).is_valid(),
        final(writer).before() == old(writer).before(),
        final(writer).first_info() == old(writer).first_info(),
        old(progress).accepts() ==> processed is Ok && final(progress).accepts(),
        processed is Err ==> is_cut_off(
            frame_views(chunk.frames@),
            processed_samples as nat,
            spec,
            chunk.start_frame as nat,
            total_frames,
            (*old(writer), *final(writer)),
            (old(progress).told(), final(progress).told()),
        ),
        processed matches Ok(samples) ==> {
            let frames = frame_views(chunk.frames@);
            &&& samples == processed_samples + samples_in(frames)
            &&& final(writer).after() == old(writer).after() + joined_frames(frames)
            &&& final(writer).info() == info_after(old(writer).info(), frames)
            &&& final(progress).told() == old(progress).told() + snapshots_of(
                frames,
                processed_samples as nat,
                spec,
                chunk.start_frame as nat,
                total_frames,
                old(writer).written(),
            )
        },
{
    let ghost frames = frame_views(chunk.frames@);
    let ghost bytes = writer.after();
    let ghost written = writer.written();
    let ghost info = writer.info();
    let ghost before = writer.before();
    let ghost told = progress.told();
    let ghost accepts = progress.accepts();
    let mut processed: u64 = processed_samples;
    let mut index: usize = 0;
    proof {
        assert(frames.take(0) == Seq::<FrameView>::empty());
        assert(bytes + joined_frames(frames.take(0)) == bytes);
        assert(told + snapshots_of(
            frames.take(0),
            processed_samples as nat,
            spec,
            chunk.start_frame as nat,
            total_frames,
            written,
        ) == told);
    }
    while index < chunk.frames.len()
        invariant
            index <= chunk.frames@.len(),
            frames == frame_views(chunk.frames@),
            processed_samples + samples_in(frames) <= u64::MAX,
            chunk.start_frame + chunk.frames@.len() <= usize::MAX,
            writer.is_valid(),
            writer.before() == before,
            before == old(writer).before(),
            writer.first_info() == old(writer).first_info(),
            bytes == old(writer).after(),
            told == old(progress).told(),
            written == old(writer).written(),
            written == before.len() + STREAMINFO_LENGTH as nat + bytes.len(),
            accepts == old(progress).accepts(),
            accepts ==> progress.accepts(),
            progress.refused() == old(progress).refused(),
            processed == processed_samples + samples_in(frames.take(index as int)),
            writer.after() == bytes + joined_frames(frames.take(index as int)),
            writer.info() == info_after(info, frames.take(index as int)),
            progress.told() == told + snapshots_of(
                frames.take(index as int),
                processed_samples as nat,
                spec,
                chunk.start_frame as nat,
                total_frames,
                written,
            ),
        decreases chunk.frames.len() - index,
    {
        let ghost next = frames.take(index + 1);
        let ghost earlier = frames.take(index as int);
        proof {
            assert(next.drop_last() == earlier);
            assert(next.last() == frames[index as int]);
            lemma_samples_grow(frames, index + 1);
        }
        writer.write_frame(chunk.frames[index].bytes.as_slice());
        processed = processed + chunk.frames[index].sample_count as u64;
        let snapshot = ProgressSnapshot {
            processed_samples: processed,
            total_samples: spec.total_samples,
            completed_frames: chunk.start_frame + index + 1,
            total_frames,
            input_bytes_read: pcm_bytes_for_samples(spec, processed),
            output_bytes_written: writer.bytes_written() as u64,
        };
        let reported = progress.on_frame(snapshot);
        proof {
            assert(writer.after() == bytes + joined_frames(next));
            let later = snapshots_of(
                next,
                processed_samples as nat,
                spec,
                chunk.start_frame as nat,
                total_frames,
                written,
            );
            let told_before = snapshots_of(
                earlier,
                processed_samples as nat,
                spec,
                chunk.start_frame as nat,
                total_frames,
                written,
            );
            assert forall|i: int| 0 <= i < earlier.len() implies #[trigger] later[i]
                == told_before[i] by {
                assert(next.take(i + 1) == earlier.take(i + 1));
            }
            assert(next.take(index + 1) == next);
            assert(later == told_before.push(snapshot));
            assert(progress.told() == told + later);
            assert(is_partly_written(
                frames,
                index + 1,
                processed_samples as nat,
                spec,
                chunk.start_frame as nat,
                total_frames,
                (*old(writer), *writer),
                (told, progress.told()),
            ));
        }
        match reported {
            Ok(()) => {},
            Err(error) => return Err(error),
        }
        index = index + 1;
    }
    assert(frames.take(index as int) == frames);
    Ok(processed)
}

/// The PCM frames of the chunk that starts at a frame.
pub open spec fn chunk_length(plan: PlanView, policy: EncodeChunkPolicy, start: int) -> nat {
    (block_offset(plan.blocks, chunk_end(plan.blocks, start, start, policy)) - block_offset(
        plan.blocks,
        start,
    )) as nat
}

/// The frames of the chunk that starts at a frame, out of the samples that come next,
/// or why it cannot be encoded.
pub open spec fn chunk_outcome(
    plan: PlanView,
    policy: EncodeChunkPolicy,
    predictors: Seq<Vec<LpcPredictors>>,
    upcoming: Seq<i32>,
    start: int,
) -> std::result::Result<Seq<FrameView>, ErrorView> {
    let frames = chunk_length(plan, policy, start);
    match chunk_failure(plan.spec, upcoming, frames) {
        Some(error) => Err(error),
        None => planned_frames(
            plan,
            upcoming.take((frames * plan.spec.channels) as int),
            block_offset(plan.blocks, start),
            predictors,
            start,
            chunk_end(plan.blocks, start, start, policy),
        ),
    }
}

/// The frames from a place on, or why one of them cannot be encoded.
pub open spec fn session_frames(
    plan: PlanView,
    policy: EncodeChunkPolicy,
    predictors: Seq<Vec<LpcPredictors>>,
    samples: Seq<i32>,
    start: int,
) -> std::result::Result<Seq<FrameView>, ErrorView>
    decreases plan.blocks.len() - start,
{
    let end = chunk_end(plan.blocks, start, start, policy);
    let upcoming = samples.skip(block_offset(plan.blocks, start) * plan.spec.channels);
    if !(0 <= start < end <= plan.blocks.len()) {
        Ok(Seq::empty())
    } else {
        match chunk_outcome(plan, policy, predictors, upcoming, start) {
            Err(error) => Err(error),
            Ok(frames) => match session_frames(plan, policy, predictors, samples, end) {
                Err(error) => Err(error),
                Ok(rest) => Ok(frames + rest),
            },
        }
    }
}

/// The frames from a place on, as far as they can be encoded chunk by chunk.
pub open spec fn session_front(
    plan: PlanView,
    policy: EncodeChunkPolicy,
    predictors: Seq<Vec<LpcPredictors>>,
    samples: Seq<i32>,
    start: int,
) -> Seq<FrameView>
    decreases plan.blocks.len() - start,
{
    let end = chunk_end(plan.blocks, start, start, policy);
    let upcoming = samples.skip(block_offset(plan.blocks, start) * plan.spec.channels);
    if !(0 <= start < end <= plan.blocks.len()) {
        Seq::empty()
    } else {
        match chunk_outcome(plan, policy, predictors, upcoming, start) {
            Err(_) => Seq::empty(),
            Ok(frames) => frames + session_front(plan, policy, predictors, samples, end),
        }
    }
}

/// Where all frames can be encoded, they are the front.
pub proof fn lemma_front_of_session(
    plan: PlanView,
    policy: EncodeChunkPolicy,
    predictors: Seq<Vec<LpcPredictors>>,
    samples: Seq<i32>,
    start: int,
)
    ensures
        session_frames(plan, policy, predictors, samples, start) matches Ok(frames)
            ==> session_front(plan, policy, predictors, samples, start) == frames,
    decreases plan.blocks.len() - start,
{
    let end = chunk_end(plan.blocks, start, start, policy);
    if 0 <= start < end <= plan.blocks.len() {
        lemma_front_of_session(plan, policy, predictors, samples, end);
    }
}

/// Samples of 8, 16 and 24 bits are tested for their range before they are encoded;
/// of others the differences between the channels have to fit.
pub open spec fn is_range_tested(bits_per_sample: u8) -> bool {
    bits_per_sample == 8 || bits_per_sample == 16 || bits_per_sample == 24
}

/// What an encode session needs of its samples.
pub open spec fn session_is_fit(plan: PlanView, samples: Seq<i32>) -> bool {
    is_range_tested(plan.spec.bits_per_sample) || differences_fit(
        plan.spec,
        plan.effort,
        samples,
    )
}

/// Samples that pass the range test have differences that fit.
pub proof fn lemma_tested_samples_fit(spec: PcmSpec, samples: Seq<i32>)
    requires
        is_range_tested(spec.bits_per_sample),
        encoded_samples(samples, digest_envelope(spec), ByteOrder::Little) is Ok,
    ensures
        forall|i: int|
            0 <= i < samples.len() ==> -0x80_0000 <= #[trigger] samples[i] <= 0x7f_ffff,
    decreases samples.len(),
{
    if samples.len() > 0 {
        lemma_tested_samples_fit(spec, samples.drop_last());
        let sample = samples.last();
        assert(encoded_sample(sample, digest_envelope(spec), ByteOrder::Little) is Ok);
        vstd::arithmetic::power2::lemma2_to64();
        assert(sample * 1 == sample);
        assert forall|i: int| 0 <= i < samples.len() implies -0x80_0000 <= #[trigger] samples[i]
            <= 0x7f_ffff by {
            if i < samples.len() - 1 {
                assert(samples[i] == samples.drop_last()[i]);
            }
        }
    }
}

/// The samples of a chunk can be encoded.
pub proof fn lemma_chunk_differences(plan: PlanView, samples: Seq<i32>, first: int, frames: int)
    requires
        session_is_fit(plan, samples),
        0 <= first,
        0 <= frames,
        plan.spec.channels >= 1,
        (first + frames) * plan.spec.channels <= samples.len(),
        encoded_samples(
            samples.skip(first * plan.spec.channels).take(frames * plan.spec.channels),
            digest_envelope(plan.spec),
            ByteOrder::Little,
        ) is Ok,
    ensures
        differences_fit(
            plan.spec,
            plan.effort,
            samples.skip(first * plan.spec.channels).take(frames * plan.spec.channels),
        ),
{
    let channels = plan.spec.channels as int;
    let chunk = samples.skip(first * channels).take(frames * channels);
    lemma_mul_is_distributive_add_other_way(channels, first, frames);
    assert(first * channels >= 0 && frames * channels >= 0) by (nonlinear_arith)
        requires
            first >= 0,
            frames >= 0,
            channels >= 0,
    ;
    if channels == 2 && plan.effort.use_mid_side_stereo {
        if is_range_tested(plan.spec.bits_per_sample) {
            lemma_tested_samples_fit(plan.spec, chunk);
            assert forall|i: int| 0 <= i < chunk.len() / 2 implies i32::MIN
                <= #[trigger] crate::frame::channel_of(chunk, 2, 0)[i]
                - crate::frame::channel_of(chunk, 2, 1)[i] <= i32::MAX by {
                assert(-0x80_0000 <= chunk[2 * i] <= 0x7f_ffff);
                assert(-0x80_0000 <= chunk[2 * i + 1] <= 0x7f_ffff);
            }
        } else {
            lemma_part_difference(samples, first, frames);
            assert(chunk == samples.subrange(first * 2, first * 2 + frames * 2));
        }
    }
}

/// Frames that follow one another.
pub proof fn lemma_joined_more(first: Seq<FrameView>, second: Seq<FrameView>, info: StreamInfo)
    ensures
        joined_frames(first + second) == joined_frames(first) + joined_frames(second),
        info_after(info, first + second) == info_after(info_after(info, first), second),
        samples_in(first + second) == samples_in(first) + samples_in(second),
    decreases second.len(),
{
    if second.len() == 0 {
        assert(first + second == first);
        assert(joined_frames(first) + Seq::<u8>::empty() == joined_frames(first));
    } else {
        lemma_joined_more(first, second.drop_last(), info);
        assert((first + second).drop_last() == first + second.drop_last());
        assert(joined_frames(first + second) == joined_frames(first) + joined_frames(second));
    }
}

/// Reports on frames that follow one another.
pub proof fn lemma_snapshots_more(
    first: Seq<FrameView>,
    second: Seq<FrameView>,
    spec: PcmSpec,
    total_frames: usize,
    written: nat,
    info: StreamInfo,
)
    ensures
        snapshots_of(first + second, 0, spec, 0, total_frames, written) == snapshots_of(
            first,
            0,
            spec,
            0,
            total_frames,
            written,
        ) + snapshots_of(
            second,
            samples_in(first),
            spec,
            first.len(),
            total_frames,
            written + joined_frames(first).len(),
        ),
{
    let whole = snapshots_of(first + second, 0, spec, 0, total_frames, written);
    let early = snapshots_of(first, 0, spec, 0, total_frames, written);
    let late = snapshots_of(
        second,
        samples_in(first),
        spec,
        first.len(),
        total_frames,
        written + joined_frames(first).len(),
    );
    assert forall|i: int| 0 <= i < whole.len() implies #[trigger] whole[i] == (early + late)[i] by {
        if i < first.len() {
            assert((first + second).take(i + 1) == first.take(i + 1));
        } else {
            let part = second.take(i + 1 - first.len());
            assert((first + second).take(i + 1) == first + part);
            lemma_joined_more(first, part, info);
        }
    }
    assert(whole == early + late);
}

/// The reports on the first frames are the first reports.
pub proof fn lemma_first_snapshots(
    frames: Seq<FrameView>,
    count: int,
    processed: nat,
    spec: PcmSpec,
    first: nat,
    total_frames: usize,
    written: nat,
)
    requires
        0 <= count <= frames.len(),
    ensures
        snapshots_of(frames.take(count), processed, spec, first, total_frames, written)
            == snapshots_of(frames, processed, spec, first, total_frames, written).take(count),
{
    let some = snapshots_of(frames.take(count), processed, spec, first, total_frames, written);
    let all = snapshots_of(frames, processed, spec, first, total_frames, written);
    assert forall|i: int| 0 <= i < count implies #[trigger] some[i] == all.take(count)[i] by {
        assert(frames.take(count).take(i + 1) == frames.take(i + 1));
    }
    assert(some == all.take(count));
}

/// A session that was cut off between two chunks.
pub proof fn lemma_cut_off_between(
    done: Seq<FrameView>,
    rest: Seq<FrameView>,
    spec: PcmSpec,
    total_frames: usize,
    writers: (FlacWriter, FlacWriter),
    told: (Seq<ProgressSnapshot>, Seq<ProgressSnapshot>),
)
    requires
        writers.1.after() == writers.0.after() + joined_frames(done),
        told.1 == told.0 + snapshots_of(done, 0, spec, 0, total_frames, writers.0.written()),
    ensures
        is_cut_off(done + rest, 0, spec, 0, total_frames, writers, told),
{
    let front = done + rest;
    assert(front.take(done.len() as int) == done);
    assert(is_partly_written(
        front,
        done.len() as int,
        0,
        spec,
        0,
        total_frames,
        writers,
        told,
    ));
}

/// A session that was cut off within a chunk.
pub proof fn lemma_cut_off_within(
    done: Seq<FrameView>,
    frames: Seq<FrameView>,
    rest: Seq<FrameView>,
    spec: PcmSpec,
    total_frames: usize,
    writers: (FlacWriter, FlacWriter, FlacWriter),
    told: (Seq<ProgressSnapshot>, Seq<ProgressSnapshot>, Seq<ProgressSnapshot>),
    info: StreamInfo,
)
    requires
        writers.1.before() == writers.0.before(),
        writers.1.after() == writers.0.after() + joined_frames(done),
        told.1 == told.0 + snapshots_of(done, 0, spec, 0, total_frames, writers.0.written()),
        is_cut_off(
            frames,
            samples_in(done),
            spec,
            done.len(),
            total_frames,
            (writers.1, writers.2),
            (told.1, told.2),
        ),
    ensures
        is_cut_off(
            done + (frames + rest),
            0,
            spec,
            0,
            total_frames,
            (writers.0, writers.2),
            (told.0, told.2),
        ),
{
    let count = choose|count: int| #[trigger]
        is_partly_written(
            frames,
            count,
            samples_in(done),
            spec,
            done.len(),
            total_frames,
            (writers.1, writers.2),
            (told.1, told.2),
        );
    let more = frames.take(count);
    let front = done + (frames + rest);
    assert(front.take(done.len() + count) == done + more);
    lemma_joined_more(done, more, info);
    lemma_snapshots_more(done, more, spec, total_frames, writers.0.written(), info);
    assert(writers.2.after() == writers.0.after() + joined_frames(done + more));
    assert(told.2 == told.0 + snapshots_of(
        done + more,
        0,
        spec,
        0,
        total_frames,
        writers.0.written(),
    ));
    assert(is_partly_written(
        front,
        done.len() + count,
        0,
        spec,
        0,
        total_frames,
        (writers.0, writers.2),
        (told.0, told.2),
    ));
}

/// The samples of planned frames.
pub proof fn lemma_samples_of_blocks(blocks: Seq<u16>, start: int, frames: Seq<FrameView>)
    requires
        0 <= start,
        start + frames.len() <= blocks.len(),
        forall|i: int|
            0 <= i < frames.len() ==> (#[trigger] frames[i]).sample_count == blocks[start + i],
    ensures
        samples_in(frames) == block_offset(blocks, start + frames.len()) - block_offset(
            blocks,
            start,
        ),
    decreases frames.len(),
{
    if frames.len() > 0 {
        let earlier = frames.drop_last();
        assert forall|i: int| 0 <= i < earlier.len() implies (
        #[trigger] earlier[i]).sample_count == blocks[start + i] by {
            assert(earlier[i] == frames[i]);
        }
        lemma_samples_of_blocks(blocks, start, earlier);
        lemma_next_offset(blocks, start + earlier.len());
        assert(frames.last() == frames[frames.len() - 1]);
    }
}

} // verus!
