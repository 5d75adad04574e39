//! Encode sessions: from PCM samples to a FLAC stream.

use vstd::prelude::*;

use crate::config::{default_encoder, with_block_size_set, with_level_set, with_threads_set, EncoderBuilder, EncoderConfig, EncoderSettings};
use crate::encode_frames::{all_predictors_are_valid, differences_fit, encode_frame_batch, frame_views, lemma_frame_count, planned_frames, FrameView};
use crate::encode_pipeline::{chunk_end, chunk_length, info_after, is_cut_off, is_failure_of_broken, is_partly_written, joined_frames, lemma_chunk_end, lemma_cut_off_between, lemma_front_of_session, lemma_samples_of_blocks, session_frames, session_front, session_is_fit, snapshots_of, write_encoded_chunk, EncodeChunkPolicy, ENCODE_CHUNK_MAX_FRAMES, ENCODE_CHUNK_TARGET_PCM_FRAMES};
use crate::encode_session::encode_streaming_session;
use crate::error::{failure_is_told, Error, ErrorView, Result};
use crate::bytes::append_bytes;
use crate::flac_writer::{blocks_bytes, blocks_fit, large_block, stream_bytes, stream_opening, FlacWriter, STREAMINFO_LENGTH};
use crate::level::{profile_of, Level};
use crate::md5::{digest_envelope, md5_of, StreaminfoMd5};
use crate::metadata::{block_views, empty_metadata, flac_block_views, Metadata, MetadataView};
use crate::pcm::{encoded_samples, ByteOrder, PcmSpec, PcmStream};
use crate::plan::{blocks_total, is_plan, plan_failure, planned_blocks, planned_info, EncodePlan, PlanView};
use crate::progress::{refusal_is_told, NoProgress, ProgressSink, ProgressSnapshot};
use crate::stream::{EncodePcmStream, EncodeSource};
use crate::riff_chunks::lemma_le_bytes_len;
use crate::stream_info::{digest_array, info_numbers, StreamInfo};
use crate::subframe::LpcPredictors;

verus! {

/// Summary of the FLAC stream produced by an encode operation.
#[derive(Debug, Clone, Copy, PartialEq, Eq, Structural)]
pub struct EncodeSummary {
    pub frame_count: usize,
    pub total_samples: u64,
    pub block_size: u16,
    pub min_frame_size: u32,
    pub max_frame_size: u32,
    pub min_block_size: u16,
    pub max_block_size: u16,
    pub sample_rate: u32,
    pub channels: u8,
    pub bits_per_sample: u8,
}

/// The summary of a stream.
pub open spec fn summary_of(info: StreamInfo, frame_count: usize) -> EncodeSummary {
    EncodeSummary {
        frame_count,
        total_samples: info.total_samples,
        block_size: info.max_block_size,
        min_frame_size: info.min_frame_size,
        max_frame_size: info.max_frame_size,
        min_block_size: info.min_block_size,
        max_block_size: info.max_block_size,
        sample_rate: info.sample_rate,
        channels: info.channels,
        bits_per_sample: info.bits_per_sample,
    }
}

/// The summary of a stream.
pub fn summary_from_stream_info(stream_info: StreamInfo, frame_count: usize) -> (summary:
    EncodeSummary)
    ensures
        summary == summary_of(stream_info, frame_count),
{
    EncodeSummary {
        frame_count,
        total_samples: stream_info.total_samples,
        block_size: stream_info.max_block_size,
        min_frame_size: stream_info.min_frame_size,
        max_frame_size: stream_info.max_frame_size,
        min_block_size: stream_info.min_block_size,
        max_block_size: stream_info.max_block_size,
        sample_rate: stream_info.sample_rate,
        channels: stream_info.channels,
        bits_per_sample: stream_info.bits_per_sample,
    }
}

/// What the settings plan for a stream.
pub open spec fn plan_view(spec: PcmSpec, settings: EncoderSettings) -> PlanView {
    PlanView {
        spec,
        effort: profile_of(settings.level),
        blocks: planned_blocks(spec.total_samples as nat, settings),
        variable: settings.block_schedule is Some,
    }
}

/// How large the chunks of a stream get.
pub open spec fn policy_for(wishes: (Option<usize>, Option<usize>)) -> EncodeChunkPolicy {
    EncodeChunkPolicy {
        max_frames: match wishes.0 {
            Some(frames) => frames,
            None => ENCODE_CHUNK_MAX_FRAMES,
        },
        target_pcm_frames: match wishes.1 {
            Some(frames) => frames,
            None => ENCODE_CHUNK_TARGET_PCM_FRAMES,
        },
    }
}

/// The frames of the FLAC stream of samples, or why there are none.
pub open spec fn flac_frames(
    spec: PcmSpec,
    settings: EncoderSettings,
    wishes: (Option<usize>, Option<usize>),
    metadata: MetadataView,
    samples: Seq<i32>,
    predictors: Seq<Vec<LpcPredictors>>,
) -> std::result::Result<Seq<FrameView>, ErrorView> {
    let plan = plan_view(spec, settings);
    match plan_failure(spec, settings) {
        Some(error) => Err(error),
        None => if !blocks_fit(flac_block_views(metadata, spec.total_samples)) {
            Err(large_block())
        } else if plan.blocks.len() == 0 {
            Ok(Seq::empty())
        } else {
            session_frames(plan, policy_for(wishes), predictors, samples, 0)
        },
    }
}

/// What is known of a stream of frames.
pub open spec fn flac_info(spec: PcmSpec, settings: EncoderSettings, frames: Seq<FrameView>)
    -> StreamInfo {
    info_after(
        planned_info(
            spec,
            planned_blocks(spec.total_samples as nat, settings),
            settings.block_schedule is Some,
            settings.block_size,
        ),
        frames,
    )
}

/// The FLAC stream of frames with the digest of their samples.
pub open spec fn flac_stream(
    spec: PcmSpec,
    settings: EncoderSettings,
    metadata: MetadataView,
    digest: Seq<u8>,
    frames: Seq<FrameView>,
) -> Seq<u8> {
    stream_bytes(
        flac_info(spec, settings, frames),
        digest,
        flac_block_views(metadata, spec.total_samples),
        joined_frames(frames),
    )
}

/// The digest of the samples that a stream declares.
pub open spec fn declared_digest(spec: PcmSpec, samples: Seq<i32>) -> Seq<u8> {
    md5_of(
        encoded_samples(
            samples.take(spec.total_samples * spec.channels),
            digest_envelope(spec),
            ByteOrder::Little,
        )->Ok_0,
    )
}

/// More samples come than the stream declares.
pub open spec fn has_more_frames(spec: PcmSpec, samples: nat) -> bool {
    spec.total_samples > 0 && samples >= (spec.total_samples + 1) * spec.channels
}

/// The error of a stream with more samples than it declares.
pub open spec fn more_frames_error() -> ErrorView {
    ErrorView::Encode("PCM stream produced more frames than declared in the spec"@)
}

/// What an encode session needs of a stream.
pub open spec fn stream_is_fit<S: EncodePcmStream>(stream: S, settings: EncoderSettings) -> bool {
    &&& stream.is_valid()
    &&& stream.chunk_wishes().0 != Some(0usize)
    &&& plan_failure(stream.description(), settings) is None ==> session_is_fit(
        plan_view(stream.description(), settings),
        stream.upcoming(),
    )
}

/// What an encode session writes and returns. `accepts` tells that no report ends it.
pub open spec fn is_written(
    spec: PcmSpec,
    samples: Seq<i32>,
    delivers: bool,
    breaks_off: Option<ErrorView>,
    wishes: (Option<usize>, Option<usize>),
    settings: EncoderSettings,
    metadata: MetadataView,
    predictors: Seq<Vec<LpcPredictors>>,
    before: Seq<u8>,
    after: Seq<u8>,
    accepts: bool,
    result: Result<EncodeSummary>,
) -> bool {
    let outcome = flac_frames(spec, settings, wishes, metadata, samples, predictors);
    &&& delivers && accepts ==> match outcome {
        Err(expected) => result matches Err(error) && error@ == expected,
        Ok(_) => if has_more_frames(spec, samples.len()) {
            result matches Err(error) && error@ == more_frames_error()
        } else {
            result is Ok
        },
    }
    &&& accepts && outcome is Err ==> (breaks_off matches Some(broken) ==> result matches Err(error)
        && is_failure_of_broken(outcome->Err_0, broken, error@))
    &&& match result {
        Ok(summary) => {
            &&& outcome matches Ok(frames)
            &&& after == before + flac_stream(
                spec,
                settings,
                metadata,
                declared_digest(spec, samples),
                frames,
            )
            &&& summary == summary_of(
                flac_info(spec, settings, frames),
                frames.len() as usize,
            )
        },
        Err(_) => leaves_front(
            spec,
            settings,
            metadata,
            no_digest(),
            flac_front(spec, settings, wishes, samples, predictors),
            before,
            after,
        ),
    }
}

/// A stream is begun.
pub open spec fn can_be_started(spec: PcmSpec, settings: EncoderSettings, metadata: MetadataView) -> bool {
    plan_failure(spec, settings) is None && blocks_fit(
        flac_block_views(metadata, spec.total_samples),
    )
}

/// What stands in place of a digest until it is known.
pub open spec fn no_digest() -> Seq<u8> {
    Seq::new(16, |i: int| 0u8)
}

/// The frames of a stream, as far as they can be encoded chunk by chunk.
pub open spec fn flac_front(
    spec: PcmSpec,
    settings: EncoderSettings,
    wishes: (Option<usize>, Option<usize>),
    samples: Seq<i32>,
    predictors: Seq<Vec<LpcPredictors>>,
) -> Seq<FrameView> {
    session_front(plan_view(spec, settings), policy_for(wishes), predictors, samples, 0)
}

/// An unfinished stream: its description does not know its frames yet, nor its digest
/// unless that was given from the start.
pub open spec fn unfinished_stream(
    spec: PcmSpec,
    settings: EncoderSettings,
    metadata: MetadataView,
    digest: Seq<u8>,
    frames: Seq<FrameView>,
) -> Seq<u8> {
    stream_bytes(
        flac_info(spec, settings, Seq::empty()),
        digest,
        flac_block_views(metadata, spec.total_samples),
        joined_frames(frames),
    )
}

/// An unfinished stream of some frames was written.
pub open spec fn leaves(
    spec: PcmSpec,
    settings: EncoderSettings,
    metadata: MetadataView,
    digest: Seq<u8>,
    frames: Seq<FrameView>,
    count: int,
    before: Seq<u8>,
    after: Seq<u8>,
) -> bool {
    &&& 0 <= count <= frames.len()
    &&& after == before + unfinished_stream(
        spec,
        settings,
        metadata,
        digest,
        frames.take(count),
    )
}

/// What a session leaves that ends with an error: nothing if the stream cannot be begun,
/// or else an unfinished stream.
pub open spec fn leaves_front(
    spec: PcmSpec,
    settings: EncoderSettings,
    metadata: MetadataView,
    digest: Seq<u8>,
    frames: Seq<FrameView>,
    before: Seq<u8>,
    after: Seq<u8>,
) -> bool {
    if !can_be_started(spec, settings, metadata) {
        after == before
    } else {
        exists|count: int| #[trigger]
            leaves(spec, settings, metadata, digest, frames, count, before, after)
    }
}

/// A session that ends with an error has told of the frames that it leaves, each once and
/// in order, and of no others.
pub open spec fn is_given_up(
    spec: PcmSpec,
    settings: EncoderSettings,
    metadata: MetadataView,
    digest: Seq<u8>,
    frames: Seq<FrameView>,
    outputs: (Seq<u8>, Seq<u8>),
    told: (Seq<ProgressSnapshot>, Seq<ProgressSnapshot>),
) -> bool {
    if !can_be_started(spec, settings, metadata) {
        outputs.1 == outputs.0 && told.1 == told.0
    } else {
        exists|count: int|
            #![trigger leaves(
                spec,
                settings,
                metadata,
                digest,
                frames,
                count,
                outputs.0,
                outputs.1,
            )]
            {
                &&& leaves(
                    spec,
                    settings,
                    metadata,
                    digest,
                    frames,
                    count,
                    outputs.0,
                    outputs.1,
                )
                &&& told.1 == told.0 + snapshots_of(
                    frames.take(count),
                    0,
                    spec,
                    0,
                    plan_view(spec, settings).blocks.len() as usize,
                    head_length(spec, metadata),
                )
            }
    }
}

/// The bytes that stand in front of the frames of a stream.
pub open spec fn head_length(spec: PcmSpec, metadata: MetadataView) -> nat {
    let blocks = flac_block_views(metadata, spec.total_samples);
    stream_opening(blocks.len()).len() + STREAMINFO_LENGTH as nat + blocks_bytes(
        blocks,
        blocks.len(),
    ).len()
}

/// What a session that ends well tells of its frames.
pub open spec fn is_told(
    spec: PcmSpec,
    samples: Seq<i32>,
    wishes: (Option<usize>, Option<usize>),
    settings: EncoderSettings,
    metadata: MetadataView,
    predictors: Seq<Vec<LpcPredictors>>,
    told_before: Seq<ProgressSnapshot>,
    told_after: Seq<ProgressSnapshot>,
) -> bool {
    &&& flac_frames(spec, settings, wishes, metadata, samples, predictors) matches Ok(frames)
    &&& told_after == told_before + snapshots_of(
        frames,
        0,
        spec,
        0,
        frames.len() as usize,
        head_length(spec, metadata),
    )
}

/// Adds the digest to a finished stream.
fn finish_stream(writer: FlacWriter, digest: Vec<u8>, frame_count: usize) -> (finished: (
    Vec<u8>,
    EncodeSummary,
))
    requires
        writer.is_valid(),
        digest@.len() == 16,
    ensures
        finished.0@ == writer.before() + (info_numbers(writer.info()) + digest@) + writer.after(),
        finished.1 == summary_of(writer.info(), frame_count),
{
    let mut writer = writer;
    writer.set_streaminfo_md5(digest_array(digest.as_slice()));
    let (bytes, info) = writer.finalize();
    (bytes, summary_from_stream_info(info, frame_count))
}

/// Leaves what was written of a stream.
fn give_up(
    writer: FlacWriter,
    output: &mut Vec<u8>,
    Ghost(stream): Ghost<(PcmSpec, EncoderSettings, MetadataView, Seq<u8>)>,
    Ghost(frames): Ghost<Seq<FrameView>>,
    Ghost(started): Ghost<FlacWriter>,
    Ghost(told): Ghost<(Seq<ProgressSnapshot>, Seq<ProgressSnapshot>)>,
)
    requires
        writer.is_valid(),
        can_be_started(stream.0, stream.1, stream.2),
        is_cut_off(
            frames,
            0,
            stream.0,
            0,
            plan_view(stream.0, stream.1).blocks.len() as usize,
            (started, writer),
            told,
        ),
        ({
            let blocks = flac_block_views(stream.2, stream.0.total_samples);
            &&& started.before() == stream_opening(blocks.len())
            &&& started.after() == blocks_bytes(blocks, blocks.len())
            &&& writer.before() == started.before()
            &&& writer.first_info() == info_numbers(flac_info(stream.0, stream.1, Seq::empty()))
                + stream.3
        }),
    ensures
        is_given_up(
            stream.0,
            stream.1,
            stream.2,
            stream.3,
            frames,
            (old(output)@, final(output)@),
            told,
        ),
        leaves_front(
            stream.0,
            stream.1,
            stream.2,
            stream.3,
            frames,
            old(output)@,
            final(output)@,
        ),
{
    let ghost last = writer;
    let bytes = writer.into_unfinished();
    append_bytes(output, bytes.as_slice());
    proof {
        let count = choose|count: int| #[trigger]
            is_partly_written(
                frames,
                count,
                0,
                stream.0,
                0,
                plan_view(stream.0, stream.1).blocks.len() as usize,
                (started, last),
                told,
            );
        assert(bytes@ == unfinished_stream(
            stream.0,
            stream.1,
            stream.2,
            stream.3,
            frames.take(count),
        ));
        assert(started.written() == head_length(stream.0, stream.2));
        assert(leaves(
            stream.0,
            stream.1,
            stream.2,
            stream.3,
            frames,
            count,
            old(output)@,
            output@,
        ));
        assert(told.1 == told.0 + snapshots_of(
            frames.take(count),
            0,
            stream.0,
            0,
            plan_view(stream.0, stream.1).blocks.len() as usize,
            head_length(stream.0, stream.2),
        ));
        let outputs = (old(output)@, output@);
        assert(leaves(
            stream.0,
            stream.1,
            stream.2,
            stream.3,
            frames,
            count,
            outputs.0,
            outputs.1,
        ));
    }
}

/// A digest has sixteen bytes.
pub proof fn lemma_digest_len(message: Seq<u8>)
    ensures
        md5_of(message).len() == 16,
{
    let state = crate::md5::state_after(message + crate::md5::md5_padding(message.len()));
    lemma_le_bytes_len(state.a as nat, 4);
    lemma_le_bytes_len(state.b as nat, 4);
    lemma_le_bytes_len(state.c as nat, 4);
    lemma_le_bytes_len(state.d as nat, 4);
}

/// A plan without frames is one of a stream without samples.
proof fn lemma_empty_plan(blocks: Seq<u16>)
    requires
        forall|i: int| 0 <= i < blocks.len() ==> #[trigger] blocks[i] >= 1,
    ensures
        blocks.len() == 0 <==> blocks_total(blocks) == 0,
{
    if blocks.len() > 0 {
        assert(blocks.last() == blocks[blocks.len() - 1]);
    }
}

/// Plans a stream and starts it.
fn start_stream(
    spec: PcmSpec,
    config: &EncoderConfig,
    metadata: &Metadata,
    md5: Option<[u8; 16]>,
) -> (started: Result<(EncodePlan, FlacWriter)>)
    ensures
        match plan_failure(spec, config@) {
            Some(expected) => started matches Err(error) && error@ == expected,
            None => {
                let blocks = flac_block_views(metadata@, spec.total_samples);
                if !blocks_fit(blocks) {
                    started matches Err(error) && error@ == large_block()
                } else {
                    started matches Ok((plan, writer)) && {
                        &&& is_plan(plan, spec, config@)
                        &&& plan@ == plan_view(spec, config@)
                        &&& writer.is_valid()
                        &&& writer.before() == stream_opening(blocks.len())
                        &&& writer.info() == match md5 {
                            Some(md5) => StreamInfo {
                                md5,
                                ..flac_info(spec, config@, Seq::empty())
                            },
                            None => flac_info(spec, config@, Seq::empty()),
                        }
                        &&& writer.first_info() == info_numbers(
                            flac_info(spec, config@, Seq::empty()),
                        ) + match md5 {
                            Some(md5) => md5@,
                            None => no_digest(),
                        }
                        &&& writer.after() == blocks_bytes(blocks, blocks.len())
                    }
                }
            },
        },
{
    let plan = match EncodePlan::new(spec, config) {
        Ok(plan) => plan,
        Err(error) => return Err(error),
    };
    proof {
        plan.lemma_description();
    }
    let mut stream_info = plan.stream_info();
    proof {
        assert(stream_info.md5@ =~= no_digest());
    }
    match md5 {
        Some(md5) => {
            stream_info.md5 = md5;
        },
        None => {},
    }
    let blocks = metadata.flac_blocks(spec.total_samples);
    match FlacWriter::new(Vec::new(), stream_info, blocks.as_slice()) {
        Ok(writer) => {
            proof {
                assert(block_views(blocks@).len() == blocks@.len());
                assert(Seq::<u8>::empty() + stream_opening(blocks@.len()) == stream_opening(
                    blocks@.len(),
                ));
            }
            Ok((plan, writer))
        },
        Err(error) => Err(error),
    }
}

/// Whether a stream hands out more than it declares.
fn has_ended<S: EncodePcmStream>(stream: &mut S) -> (ended: Result<bool>)
    requires
        old(stream).is_valid(),
        old(stream).description().channels >= 1,
    ensures
        failure_is_told(old(stream).failed(), final(stream).failed(), ended),
        final(stream).is_valid(),
        old(stream).delivers() ==> ended == Ok::<bool, Error>(
            old(stream).upcoming().len() < old(stream).description().channels,
        ),
{
    let mut rest: Vec<i32> = Vec::new();
    proof {
        let channels = stream.description().channels as nat;
        assert(1 * channels == channels);
        if stream.upcoming().len() < channels {
            vstd::arithmetic::div_mod::lemma_basic_div(
                stream.upcoming().len() as int,
                channels as int,
            );
        }
    }
    match stream.read_chunk(1, &mut rest) {
        Ok(frames) => Ok(frames == 0),
        Err(error) => Err(error),
    }
}

/// Encodes what a stream hands out. A read that fails ends it with the error of the read.
/// `predictors` holds, for each frame, what was estimated for its channel signals.
#[verifier::rlimit(60)]
#[verifier::spinoff_prover]
pub fn encode_from_stream<S: EncodePcmStream, P: ProgressSink>(
    config: &EncoderConfig,
    metadata: &Metadata,
    stream: &mut S,
    output: &mut Vec<u8>,
    progress: &mut P,
    predictors: &[Vec<LpcPredictors>],
) -> (summary: Result<EncodeSummary>)
    requires
        stream_is_fit(*old(stream), config@),
        all_predictors_are_valid(predictors@),
    ensures
        refusal_is_told(*old(progress), *final(progress), summary),
        failure_is_told(old(stream).failed(), final(stream).failed(), summary),
        is_written(
            old(stream).description(),
            old(stream).upcoming(),
            old(stream).delivers(),
            old(stream).breaks_off(),
            old(stream).chunk_wishes(),
            config@,
            metadata@,
            predictors@,
            old(output)@,
            final(output)@,
            old(progress).accepts(),
            summary,
        ),
        summary is Ok ==> is_told(
            old(stream).description(),
            old(stream).upcoming(),
            old(stream).chunk_wishes(),
            config@,
            metadata@,
            predictors@,
            old(progress).told(),
            final(progress).told(),
        ),
        summary is Err ==> is_given_up(
            old(stream).description(),
            config@,
            metadata@,
            no_digest(),
            flac_front(
                old(stream).description(),
                config@,
                old(stream).chunk_wishes(),
                old(stream).upcoming(),
                predictors@,
            ),
            (old(output)@, final(output)@),
            (old(progress).told(), final(progress).told()),
        ),
{
    let spec = stream.spec();
    let ghost samples = stream.upcoming();
    let ghost settings = config@;
    let ghost blocks = flac_block_views(metadata@, spec.total_samples);
    let ghost view = plan_view(spec, settings);
    let policy = EncodeChunkPolicy {
        max_frames: match stream.preferred_encode_chunk_max_frames() {
            Some(frames) => frames,
            None => ENCODE_CHUNK_MAX_FRAMES,
        },
        target_pcm_frames: match stream.preferred_encode_chunk_target_pcm_frames() {
            Some(frames) => frames,
            None => ENCODE_CHUNK_TARGET_PCM_FRAMES,
        },
    };
    let (plan, writer) = match start_stream(spec, config, metadata, None) {
        Ok(started) => started,
        Err(error) => return Err(error),
    };
    let total_frames: usize = plan.total_frames();
    let mut writer = writer;
    let mut md5 = StreaminfoMd5::new(spec);
    let ghost started = writer;
    proof {
        plan.lemma_description();
        lemma_empty_plan(view.blocks);
    }
    let ghost mut frames: Seq<FrameView> = Seq::empty();
    let ghost told = progress.told();
    if total_frames > 0 {
        match encode_streaming_session(
            &plan,
            stream,
            &mut writer,
            progress,
            &mut md5,
            policy,
            predictors,
        ) {
            Ok(()) => {},
            Err(error) => {
                give_up(
                    writer,
                    output,
                    Ghost((spec, settings, metadata@, no_digest())),
                    Ghost(session_front(view, policy, predictors@, samples, 0)),
                    Ghost(started),
                    Ghost((told, progress.told())),
                );
                return Err(error);
            },
        }
        proof {
            frames = session_frames(view, policy, predictors@, samples, 0)->Ok_0;
            lemma_front_of_session(view, policy, predictors@, samples, 0);
            assert(frames + Seq::<FrameView>::empty() == frames);
            lemma_more_frames(spec, samples);
            lemma_session_len(view, policy, predictors@, samples);
        }
        let refusal = match has_ended(stream) {
            Ok(ended) => if ended {
                None
            } else {
                Some(
                    Error::Encode(
                        "PCM stream produced more frames than declared in the spec".to_owned(),
                    ),
                )
            },
            Err(error) => Some(error),
        };
        match refusal {
            None => {},
            Some(error) => {
                proof {
                    lemma_cut_off_between(
                        frames,
                        Seq::empty(),
                        spec,
                        total_frames,
                        (started, writer),
                        (told, progress.told()),
                    );
                }
                give_up(
                    writer,
                    output,
                    Ghost((spec, settings, metadata@, no_digest())),
                    Ghost(frames),
                    Ghost(started),
                    Ghost((told, progress.told())),
                );
                return Err(error);
            },
        }
    } else {
        proof {
            let count = spec.total_samples * spec.channels;
            assert(count == 0) by (nonlinear_arith)
                requires
                    count == spec.total_samples * spec.channels,
                    spec.total_samples == 0,
            ;
            assert(samples.take(0) == Seq::<i32>::empty());
            assert(writer.after() + joined_frames(frames) == writer.after());
            assert(progress.told() + snapshots_of(frames, 0, spec, 0, 0, head_length(spec, metadata@))
                == progress.told());
        }
    }
    assert(started.written() == head_length(spec, metadata@));
    let digest = match stream.finish_streaminfo_md5(md5) {
        Ok(digest) => digest,
        Err(error) => return Err(error),
    };
    proof {
        lemma_digest_len(md5.digested());
        lemma_session_len(view, policy, predictors@, samples);
    }
    let (bytes, summary) = finish_stream(writer, digest, total_frames);
    append_bytes(output, bytes.as_slice());
    proof {
        assert(bytes@ == flac_stream(
            spec,
            settings,
            metadata@,
            declared_digest(spec, samples),
            frames,
        ));
    }
    Ok(summary)
}

/// Encodes a stream of samples. `predictors` holds, for each frame, what was estimated
/// for its channel signals.
pub fn encode_stream<S: EncodePcmStream, P: ProgressSink>(
    config: &EncoderConfig,
    metadata: &Metadata,
    stream: S,
    output: &mut Vec<u8>,
    progress: &mut P,
    predictors: &[Vec<LpcPredictors>],
) -> (summary: Result<EncodeSummary>)
    requires
        stream_is_fit(stream, config@),
        all_predictors_are_valid(predictors@),
    ensures
        refusal_is_told(*old(progress), *final(progress), summary),
        is_written(
            stream.description(),
            stream.upcoming(),
            stream.delivers(),
            stream.breaks_off(),
            stream.chunk_wishes(),
            config@,
            metadata@,
            predictors@,
            old(output)@,
            final(output)@,
            old(progress).accepts(),
            summary,
        ),
        summary is Ok ==> is_told(
            stream.description(),
            stream.upcoming(),
            stream.chunk_wishes(),
            config@,
            metadata@,
            predictors@,
            old(progress).told(),
            final(progress).told(),
        ),
        summary is Err ==> is_given_up(
            stream.description(),
            config@,
            metadata@,
            no_digest(),
            flac_front(
                stream.description(),
                config@,
                stream.chunk_wishes(),
                stream.upcoming(),
                predictors@,
            ),
            (old(output)@, final(output)@),
            (old(progress).told(), final(progress).told()),
        ),
{
    let mut stream = stream;
    encode_from_stream(config, metadata, &mut stream, output, progress, predictors)
}

/// More samples come than declared, seen from behind the declared ones.
proof fn lemma_more_frames(spec: PcmSpec, samples: Seq<i32>)
    requires
        spec.total_samples * spec.channels <= samples.len(),
        spec.total_samples > 0,
    ensures
        has_more_frames(spec, samples.len()) <==> samples.skip(
            spec.total_samples * spec.channels,
        ).len() >= spec.channels,
{
    let channels = spec.channels as int;
    let frames = spec.total_samples as int;
    assert((frames + 1) * channels == frames * channels + channels) by (nonlinear_arith);
}

/// A whole session has all planned frames.
pub proof fn lemma_session_len(
    plan: PlanView,
    policy: EncodeChunkPolicy,
    predictors: Seq<Vec<LpcPredictors>>,
    samples: Seq<i32>,
)
    requires
        policy.max_frames >= 1,
    ensures
        session_frames(plan, policy, predictors, samples, 0) matches Ok(frames) ==> frames.len()
            == plan.blocks.len(),
{
    lemma_rest_len(plan, policy, predictors, samples, 0);
}

proof fn lemma_rest_len(
    plan: PlanView,
    policy: EncodeChunkPolicy,
    predictors: Seq<Vec<LpcPredictors>>,
    samples: Seq<i32>,
    start: int,
)
    requires
        policy.max_frames >= 1,
        0 <= start <= plan.blocks.len(),
    ensures
        session_frames(plan, policy, predictors, samples, start) matches Ok(frames) ==> frames.len()
            == plan.blocks.len() - start,
    decreases plan.blocks.len() - start,
{
    let end = chunk_end(plan.blocks, start, start, policy);
    lemma_chunk_end(plan.blocks, start, start, policy);
    if start < plan.blocks.len() && session_frames(plan, policy, predictors, samples, start) is Ok {
        let upcoming = samples.skip(
            crate::plan::block_offset(plan.blocks, start) * plan.spec.channels,
        );
        let length = chunk_length(plan, policy, start);
        lemma_frame_count(
            plan,
            upcoming.take((length * plan.spec.channels) as int),
            crate::plan::block_offset(plan.blocks, start),
            predictors,
            start,
            end,
        );
        lemma_rest_len(plan, policy, predictors, samples, end);
    }
}

/// Writer-owning PCM-container-to-FLAC encode session.
#[derive(Debug, Clone, PartialEq, Eq)]
pub struct Encoder<W> {
    config: EncoderConfig,
    writer: W,
}

impl EncoderConfig {
    /// Bind an output writer and create a writer-owning encode session.
    pub fn into_encoder<W>(self, writer: W) -> (encoder: Encoder<W>)
        ensures
            encoder.settings() == self@,
            encoder.output() == writer,
    {
        Encoder::new(writer, self)
    }
}

impl EncoderBuilder {
    /// Finish building the configuration and bind an output writer.
    pub fn into_encoder<W>(self, writer: W) -> (encoder: Encoder<W>)
        ensures
            encoder.settings() == self@,
            encoder.output() == writer,
    {
        self.build().into_encoder(writer)
    }
}

impl<W> Encoder<W> {
    /// The settings of the session.
    pub closed spec fn settings(&self) -> EncoderSettings {
        self.config@
    }

    /// The writer of the session.
    pub closed spec fn output(&self) -> W {
        self.writer
    }

    /// Create a builder initialized from [`EncoderConfig::builder`].
    pub fn builder() -> (builder: EncoderBuilder)
        ensures
            builder@ == default_encoder(),
    {
        EncoderConfig::builder()
    }

    /// Construct a writer-owning encode session from a writer and config.
    pub fn new(writer: W, config: EncoderConfig) -> (encoder: Self)
        ensures
            encoder.settings() == config@,
            encoder.output() == writer,
    {
        Encoder { config, writer }
    }

    /// Return a copy of the session configuration.
    pub fn config(&self) -> (config: EncoderConfig)
        ensures
            config@ == self.settings(),
    {
        self.config.copied()
    }

    /// Return a new session with a different compression level preset.
    pub fn with_level(self, level: Level) -> (encoder: Self)
        ensures
            encoder.settings() == with_level_set(self.settings(), level),
            encoder.output() == self.output(),
    {
        Encoder { config: self.config.with_level(level), writer: self.writer }
    }

    /// Return a new session with a different worker thread count.
    pub fn with_threads(self, threads: usize) -> (encoder: Self)
        ensures
            encoder.settings() == with_threads_set(self.settings(), threads),
            encoder.output() == self.output(),
    {
        Encoder { config: self.config.with_threads(threads), writer: self.writer }
    }

    /// Return a new session with a different fixed block size.
    pub fn with_block_size(self, block_size: u16) -> (encoder: Self)
        ensures
            encoder.settings() == with_block_size_set(self.settings(), block_size),
            encoder.output() == self.output(),
    {
        Encoder { config: self.config.with_block_size(block_size), writer: self.writer }
    }

    /// Return a shared reference to the owned output writer.
    pub fn writer(&self) -> (writer: &W)
        ensures
            *writer == self.output(),
    {
        &self.writer
    }

    /// Return a mutable reference to the owned output writer.
    pub fn writer_mut(&mut self) -> (writer: &mut W)
        ensures
            *writer == old(self).output(),
            final(self).output() == *final(writer),
            final(self).settings() == old(self).settings(),
    {
        &mut self.writer
    }

    /// Consume the session and return the owned writer.
    pub fn into_inner(self) -> (writer: W)
        ensures
            writer == self.output(),
    {
        self.writer
    }
}

impl Encoder<Vec<u8>> {
    /// Encode a single-pass PCM stream into the owned writer.
    pub fn encode<S: EncodePcmStream>(&mut self, stream: S, predictors: &[Vec<LpcPredictors>]) -> (summary:
        Result<EncodeSummary>)
        requires
            stream_is_fit(stream, old(self).settings()),
            all_predictors_are_valid(predictors@),
        ensures
            final(self).settings() == old(self).settings(),
            is_written(
                stream.description(),
                stream.upcoming(),
                stream.delivers(),
                stream.breaks_off(),
                stream.chunk_wishes(),
                old(self).settings(),
                empty_metadata(),
                predictors@,
                old(self).output()@,
                final(self).output()@,
                true,
                summary,
            ),
    {
        let mut progress = NoProgress::new();
        self.encode_with_progress(stream, &mut progress, predictors)
    }

    /// Encode an owned source that keeps metadata and the PCM stream together.
    pub fn encode_source<S: EncodePcmStream>(
        &mut self,
        source: EncodeSource<S>,
        predictors: &[Vec<LpcPredictors>],
    ) -> (summary: Result<EncodeSummary>)
        requires
            stream_is_fit(source.samples(), old(self).settings()),
            all_predictors_are_valid(predictors@),
        ensures
            final(self).settings() == old(self).settings(),
            is_written(
                source.samples().description(),
                source.samples().upcoming(),
                source.samples().delivers(),
                source.samples().breaks_off(),
                source.samples().chunk_wishes(),
                old(self).settings(),
                source.staged(),
                predictors@,
                old(self).output()@,
                final(self).output()@,
                true,
                summary,
            ),
    {
        let mut progress = NoProgress::new();
        self.encode_source_with_progress(source, &mut progress, predictors)
    }

    /// Encode a single-pass PCM stream while reporting frame-level progress.
    pub fn encode_with_progress<S: EncodePcmStream, P: ProgressSink>(
        &mut self,
        stream: S,
        progress: &mut P,
        predictors: &[Vec<LpcPredictors>],
    ) -> (summary: Result<EncodeSummary>)
        requires
            stream_is_fit(stream, old(self).settings()),
            all_predictors_are_valid(predictors@),
        ensures
            refusal_is_told(*old(progress), *final(progress), summary),
            final(self).settings() == old(self).settings(),
            is_written(
                stream.description(),
                stream.upcoming(),
                stream.delivers(),
                stream.breaks_off(),
                stream.chunk_wishes(),
                old(self).settings(),
                empty_metadata(),
                predictors@,
                old(self).output()@,
                final(self).output()@,
                old(progress).accepts(),
                summary,
            ),
            summary is Ok ==> is_told(
                stream.description(),
                stream.upcoming(),
                stream.chunk_wishes(),
                old(self).settings(),
                empty_metadata(),
                predictors@,
                old(progress).told(),
                final(progress).told(),
            ),
            summary is Err ==> is_given_up(
                stream.description(),
                old(self).settings(),
                empty_metadata(),
                no_digest(),
                flac_front(
                    stream.description(),
                    old(self).settings(),
                    stream.chunk_wishes(),
                    stream.upcoming(),
                    predictors@,
                ),
                (old(self).output()@, final(self).output()@),
                (old(progress).told(), final(progress).told()),
            ),
    {
        self.encode_source_with_progress(
            EncodeSource::new(Metadata::default(), stream),
            progress,
            predictors,
        )
    }

    /// Encode an owned source while reporting frame-level progress.
    pub fn encode_source_with_progress<S: EncodePcmStream, P: ProgressSink>(
        &mut self,
        source: EncodeSource<S>,
        progress: &mut P,
        predictors: &[Vec<LpcPredictors>],
    ) -> (summary: Result<EncodeSummary>)
        requires
            stream_is_fit(source.samples(), old(self).settings()),
            all_predictors_are_valid(predictors@),
        ensures
            refusal_is_told(*old(progress), *final(progress), summary),
            final(self).settings() == old(self).settings(),
            is_written(
                source.samples().description(),
                source.samples().upcoming(),
                source.samples().delivers(),
                source.samples().breaks_off(),
                source.samples().chunk_wishes(),
                old(self).settings(),
                source.staged(),
                predictors@,
                old(self).output()@,
                final(self).output()@,
                old(progress).accepts(),
                summary,
            ),
            summary is Ok ==> is_told(
                source.samples().description(),
                source.samples().upcoming(),
                source.samples().chunk_wishes(),
                old(self).settings(),
                source.staged(),
                predictors@,
                old(progress).told(),
                final(progress).told(),
            ),
            summary is Err ==> is_given_up(
                source.samples().description(),
                old(self).settings(),
                source.staged(),
                no_digest(),
                flac_front(
                    source.samples().description(),
                    old(self).settings(),
                    source.samples().chunk_wishes(),
                    source.samples().upcoming(),
                    predictors@,
                ),
                (old(self).output()@, final(self).output()@),
                (old(progress).told(), final(progress).told()),
            ),
    {
        let (metadata, stream) = source.into_parts();
        encode_stream(&self.config, &metadata, stream, &mut self.writer, progress, predictors)
    }

    /// Encode samples in memory whose digest is known.
    #[verifier::rlimit(60)]
    #[verifier::spinoff_prover]
    pub fn encode_buffered_pcm_with_sink<P: ProgressSink>(
        &mut self,
        metadata: &Metadata,
        pcm: &PcmStream,
        streaminfo_md5: [u8; 16],
        progress: &mut P,
        predictors: &[Vec<LpcPredictors>],
    ) -> (summary: Result<EncodeSummary>)
        requires
            pcm.spec.total_samples * pcm.spec.channels <= pcm.samples@.len(),
            differences_fit(
                pcm.spec,
                profile_of(old(self).settings().level),
                pcm.samples@,
            ),
            all_predictors_are_valid(predictors@),
        ensures
            refusal_is_told(*old(progress), *final(progress), summary),
            final(self).settings() == old(self).settings(),
            ({
                let outcome = buffered_frames(
                    pcm.spec,
                    old(self).settings(),
                    metadata@,
                    pcm.samples@,
                    predictors@,
                );
                &&& old(progress).accepts() ==> match outcome {
                    Err(expected) => summary matches Err(error) && error@ == expected,
                    Ok(_) => summary is Ok,
                }
                &&& match summary {
                    Ok(found) => {
                        &&& outcome matches Ok(frames)
                        &&& final(self).output()@ == old(self).output()@ + flac_stream(
                            pcm.spec,
                            old(self).settings(),
                            metadata@,
                            streaminfo_md5@,
                            frames,
                        )
                        &&& found == summary_of(
                            flac_info(pcm.spec, old(self).settings(), frames),
                            frames.len() as usize,
                        )
                        &&& final(progress).told() == old(progress).told() + snapshots_of(
                            frames,
                            0,
                            pcm.spec,
                            0,
                            frames.len() as usize,
                            head_length(pcm.spec, metadata@),
                        )
                    },
                    Err(_) => is_given_up(
                        pcm.spec,
                        old(self).settings(),
                        metadata@,
                        streaminfo_md5@,
                        match outcome {
                            Ok(frames) => frames,
                            Err(_) => Seq::empty(),
                        },
                        (old(self).output()@, final(self).output()@),
                        (old(progress).told(), final(progress).told()),
                    ),
                }
            }),
    {
        let spec = pcm.spec;
        let ghost settings = self.config@;
        let ghost view = plan_view(spec, settings);
        let (plan, writer) = match start_stream(spec, &self.config, metadata, Some(streaminfo_md5)) {
            Ok(started) => started,
            Err(error) => return Err(error),
        };
        let total_frames: usize = plan.total_frames();
        proof {
            plan.lemma_description();
            assert(view.blocks.take(view.blocks.len() as int) == view.blocks);
            assert(view.blocks.take(0) == Seq::<u16>::empty());
        }
        let mut writer = writer;
        let chunk = match encode_frame_batch(
            pcm.samples.as_slice(),
            &plan,
            0,
            0,
            total_frames,
            0,
            predictors,
        ) {
            Ok(chunk) => chunk,
            Err(error) => {
                let ghost none = Seq::<FrameView>::empty();
                proof {
                    assert(none + none == none);
                    assert(writer.after() + joined_frames(none) == writer.after());
                    assert(progress.told() + snapshots_of(
                        none,
                        0,
                        spec,
                        0,
                        total_frames,
                        head_length(spec, metadata@),
                    ) == progress.told());
                    lemma_cut_off_between(
                        none,
                        none,
                        spec,
                        total_frames,
                        (writer, writer),
                        (progress.told(), progress.told()),
                    );
                }
                give_up(
                    writer,
                    &mut self.writer,
                    Ghost((spec, settings, metadata@, streaminfo_md5@)),
                    Ghost(none),
                    Ghost(writer),
                    Ghost((progress.told(), progress.told())),
                );
                return Err(error);
            },
        };
        let ghost frames = frame_views(chunk.frames@);
        let ghost started = writer;
        let ghost told = progress.told();
        proof {
            lemma_info_keeps_digest(writer.info(), flac_info(spec, settings, Seq::empty()), frames);
            lemma_frame_count(view, pcm.samples@, 0, predictors@, 0, total_frames as int);
            lemma_samples_of_blocks(view.blocks, 0, frames);
        }
        match write_encoded_chunk(
            &mut writer,
            &chunk,
            0,
            spec,
            total_frames,
            progress,
        ) {
            Ok(_) => {},
            Err(error) => {
                give_up(
                    writer,
                    &mut self.writer,
                    Ghost((spec, settings, metadata@, streaminfo_md5@)),
                    Ghost(frames),
                    Ghost(started),
                    Ghost((told, progress.told())),
                );
                return Err(error);
            },
        }
        writer.set_streaminfo_md5(streaminfo_md5);
        let (bytes, info) = writer.finalize();
        append_bytes(&mut self.writer, bytes.as_slice());
        proof {
            assert(bytes@ == flac_stream(spec, settings, metadata@, streaminfo_md5@, frames));
        }
        Ok(summary_from_stream_info(info, total_frames))
    }
}

/// Frames do not change the digest, nor does the digest change what frames add.
proof fn lemma_info_keeps_digest(info: StreamInfo, other: StreamInfo, frames: Seq<FrameView>)
    requires
        info == (StreamInfo { md5: info.md5, ..other }),
    ensures
        info_after(info, frames) == (StreamInfo { md5: info.md5, ..info_after(other, frames) }),
    decreases frames.len(),
{
    if frames.len() > 0 {
        lemma_info_keeps_digest(info, other, frames.drop_last());
    }
}

/// The frames of the FLAC stream of samples in memory, or why there are none.
pub open spec fn buffered_frames(
    spec: PcmSpec,
    settings: EncoderSettings,
    metadata: MetadataView,
    samples: Seq<i32>,
    predictors: Seq<Vec<LpcPredictors>>,
) -> std::result::Result<Seq<FrameView>, ErrorView> {
    let plan = plan_view(spec, settings);
    match plan_failure(spec, settings) {
        Some(error) => Err(error),
        None => if !blocks_fit(flac_block_views(metadata, spec.total_samples)) {
            Err(large_block())
        } else {
            planned_frames(plan, samples, 0, predictors, 0, plan.blocks.len() as int)
        },
    }
}

} // verus!
