//! An encode session from the first chunk to the last.

use vstd::arithmetic::mul::lemma_mul_is_distributive_add_other_way;
use vstd::prelude::*;

use crate::aiff_round_trip::law_samples_are_stored_piecewise;
use crate::encode_frames::{all_predictors_are_valid, differences_fit, encode_chunk, frame_views, lemma_frame_count, EncodedChunk, FrameView};
use crate::encode_pipeline::{chunk_end, chunk_end_for_plan, chunk_failure, chunk_length, chunk_outcome, info_after, is_cut_off, is_failure_of_broken, joined_frames, lemma_chunk_differences, lemma_cut_off_between, lemma_cut_off_within, lemma_joined_more, lemma_samples_of_blocks, lemma_snapshots_more, read_planned_chunk, samples_in, session_frames, session_front, session_is_fit, snapshots_of, write_encoded_chunk, EncodeChunkPolicy};
use crate::error::{failure_is_told, ErrorView, Result};
use crate::flac_writer::{FlacWriter, STREAMINFO_LENGTH};
use crate::md5::{digest_envelope, StreaminfoMd5};
use crate::pcm::{encoded_samples, lemma_encoded_samples_len, ByteOrder};
use crate::plan::{block_offset, blocks_total, lemma_offsets_grow, EncodePlan, PlanView};
use crate::progress::{refusal_is_told, ProgressSink};
use crate::stream::EncodePcmStream;
use crate::subframe::LpcPredictors;

verus! {

/// Reads and encodes the chunk that starts at a frame.
fn encode_next_chunk<S: EncodePcmStream>(
    stream: &mut S,
    plan: &EncodePlan,
    chunk_start: usize,
    policy: EncodeChunkPolicy,
    md5: &mut StreaminfoMd5,
    buffer: &mut Vec<i32>,
    predictors: &[Vec<LpcPredictors>],
) -> (chunk: Result<EncodedChunk>)
    requires
        old(stream).is_valid(),
        old(stream).description() == plan.description(),
        plan.is_valid(),
        chunk_start < plan.blocks().len(),
        policy.max_frames >= 1,
        old(md5).is_valid(),
        old(md5).layout() == digest_envelope(plan.description()),
        old(md5).digested().len() <= 0x1000_0000_0000,
        all_predictors_are_valid(predictors@),
        ({
            let frames = chunk_length(plan@, policy, chunk_start as int);
            let upcoming = old(stream).upcoming();
            chunk_failure(plan@.spec, upcoming, frames) is None ==> differences_fit(
                plan@.spec,
                plan@.effort,
                upcoming.take((frames * plan@.spec.channels) as int),
            )
        }),
    ensures
        failure_is_told(old(stream).failed(), final(stream).failed(), chunk),
        final(stream).is_valid(),
        final(stream).description() == old(stream).description(),
        final(md5).is_valid(),
        final(md5).layout() == old(md5).layout(),
        ({
            let frames = chunk_length(plan@, policy, chunk_start as int);
            let count = (frames * plan@.spec.channels) as int;
            let upcoming = old(stream).upcoming();
            let outcome = chunk_outcome(
                plan@,
                policy,
                predictors@,
                upcoming,
                chunk_start as int,
            );
            &&& old(stream).delivers() ==> final(stream).delivers() && match outcome {
                Ok(_) => chunk is Ok,
                Err(expected) => chunk matches Err(error) && error@ == expected,
            }
            &&& old(stream).breaks_off() matches Some(broken) ==> match outcome {
                Ok(_) => chunk is Ok && final(stream).breaks_off() == Some(broken),
                Err(expected) => chunk matches Err(error) && is_failure_of_broken(
                    expected,
                    broken,
                    error@,
                ),
            }
            &&& chunk matches Ok(found) ==> {
                &&& found.start_frame == chunk_start
                &&& outcome == Ok::<Seq<FrameView>, ErrorView>(frame_views(found.frames@))
                &&& count <= upcoming.len()
                &&& final(stream).upcoming() == upcoming.skip(count)
                &&& encoded_samples(
                    upcoming.take(count),
                    old(md5).layout(),
                    ByteOrder::Little,
                ) matches Ok(bytes) && final(md5).digested() == old(md5).digested() + bytes
            }
        }),
{
    let end: usize = chunk_end_for_plan(plan, chunk_start, policy);
    match read_planned_chunk(stream, plan, chunk_start, end, md5, buffer) {
        Ok(()) => {},
        Err(error) => return Err(error),
    }
    proof {
        lemma_offsets_grow(plan@.blocks, chunk_start as int, end as int);
    }
    encode_chunk(plan, chunk_start, end, buffer.as_slice(), predictors)
}

/// What holds between two chunks of a session.
spec fn session_state(
    plan: PlanView,
    policy: EncodeChunkPolicy,
    predictors: Seq<Vec<LpcPredictors>>,
    samples: Seq<i32>,
    start: int,
    done: Seq<FrameView>,
    digested: Seq<u8>,
) -> bool {
    let channels = plan.spec.channels as int;
    let count = block_offset(plan.blocks, start) * channels;
    &&& 0 <= start <= plan.blocks.len()
    &&& done.len() == start
    &&& samples_in(done) == block_offset(plan.blocks, start)
    &&& count <= samples.len()
    &&& encoded_samples(samples.take(count), digest_envelope(plan.spec), ByteOrder::Little) == Ok::<
        Seq<u8>,
        ErrorView,
    >(digested)
    &&& match session_frames(plan, policy, predictors, samples, start) {
        Err(error) => session_frames(plan, policy, predictors, samples, 0) == Err::<
            Seq<FrameView>,
            ErrorView,
        >(error),
        Ok(rest) => session_frames(plan, policy, predictors, samples, 0) == Ok::<
            Seq<FrameView>,
            ErrorView,
        >(done + rest),
    }
    &&& session_front(plan, policy, predictors, samples, 0) == done + session_front(
        plan,
        policy,
        predictors,
        samples,
        start,
    )
}

proof fn lemma_session_starts(
    plan: PlanView,
    policy: EncodeChunkPolicy,
    predictors: Seq<Vec<LpcPredictors>>,
    samples: Seq<i32>,
)
    ensures
        session_state(plan, policy, predictors, samples, 0, Seq::empty(), Seq::empty()),
{
    assert(plan.blocks.take(0) == Seq::<u16>::empty());
    assert(samples.take(0) == Seq::<i32>::empty());
    assert(0 * (plan.spec.channels as int) == 0);
    if let Ok(rest) = session_frames(plan, policy, predictors, samples, 0) {
        assert(Seq::<FrameView>::empty() + rest == rest);
    }
    let front = session_front(plan, policy, predictors, samples, 0);
    assert(Seq::<FrameView>::empty() + front == front);
}

/// The size of what was digested.
proof fn lemma_digested_size(
    plan: PlanView,
    policy: EncodeChunkPolicy,
    predictors: Seq<Vec<LpcPredictors>>,
    samples: Seq<i32>,
    start: int,
    done: Seq<FrameView>,
    digested: Seq<u8>,
)
    requires
        session_state(plan, policy, predictors, samples, start, done, digested),
        1 <= plan.spec.channels <= 8,
        blocks_total(plan.blocks) < 0x10_0000_0000,
    ensures
        digested.len() <= 0x1000_0000_0000,
{
    let channels = plan.spec.channels as int;
    let offset = block_offset(plan.blocks, start);
    let count = offset * channels;
    let envelope = digest_envelope(plan.spec);
    let width = (envelope.container_bits_per_sample / 8) as int;
    lemma_offsets_grow(plan.blocks, start, plan.blocks.len() as int);
    lemma_encoded_samples_len(samples.take(count), envelope, ByteOrder::Little);
    assert(count <= 0x10_0000_0000 * 8) by (nonlinear_arith)
        requires
            count == offset * channels,
            offset <= 0x10_0000_0000,
            channels <= 8,
    ;
    assert(count * width <= 0x80_0000_0000 * 4) by (nonlinear_arith)
        requires
            0 <= count <= 0x80_0000_0000,
            0 <= width <= 4,
    ;
}

/// What holds after one more chunk.
#[verifier::rlimit(60)]
#[verifier::spinoff_prover]
proof fn lemma_session_goes_on(
    plan: PlanView,
    policy: EncodeChunkPolicy,
    predictors: Seq<Vec<LpcPredictors>>,
    samples: Seq<i32>,
    start: int,
    done: Seq<FrameView>,
    digested: Seq<u8>,
    frames: Seq<FrameView>,
    more: Seq<u8>,
)
    requires
        session_state(plan, policy, predictors, samples, start, done, digested),
        start < chunk_end(plan.blocks, start, start, policy) <= plan.blocks.len(),
        ({
            let channels = plan.spec.channels as int;
            let upcoming = samples.skip(block_offset(plan.blocks, start) * channels);
            let count = chunk_length(plan, policy, start) * channels;
            &&& chunk_outcome(plan, policy, predictors, upcoming, start) == Ok::<
                Seq<FrameView>,
                ErrorView,
            >(frames)
            &&& count <= upcoming.len()
            &&& encoded_samples(
                upcoming.take(count),
                digest_envelope(plan.spec),
                ByteOrder::Little,
            ) == Ok::<Seq<u8>, ErrorView>(more)
        }),
    ensures
        session_state(
            plan,
            policy,
            predictors,
            samples,
            chunk_end(plan.blocks, start, start, policy),
            done + frames,
            digested + more,
        ),
        ({
            let channels = plan.spec.channels as int;
            let end = chunk_end(plan.blocks, start, start, policy);
            let upcoming = samples.skip(block_offset(plan.blocks, start) * channels);
            let count = chunk_length(plan, policy, start) * channels;
            &&& upcoming.skip(count) == samples.skip(block_offset(plan.blocks, end) * channels)
            &&& samples_in(done) + samples_in(frames) == block_offset(plan.blocks, end)
            &&& start + frames.len() == end
        }),
{
    let channels = plan.spec.channels as int;
    let end = chunk_end(plan.blocks, start, start, policy);
    let first = block_offset(plan.blocks, start) as int;
    let length = chunk_length(plan, policy, start) as int;
    let upcoming = samples.skip(first * channels);
    let count = length * channels;
    lemma_offsets_grow(plan.blocks, start, end);
    lemma_mul_is_distributive_add_other_way(channels, first, length);
    assert(first * channels >= 0 && count >= 0) by (nonlinear_arith)
        requires
            first >= 0,
            length >= 0,
            channels >= 0,
            count == length * channels,
    ;
    lemma_frame_count(plan, upcoming.take(count), first as nat, predictors, start, end);
    lemma_samples_of_blocks(plan.blocks, start, frames);
    let info = crate::stream_info::new_info(plan.spec, 0, 0);
    lemma_joined_more(done, frames, info);
    let before = samples.take(first * channels);
    let chunk = upcoming.take(count);
    law_samples_are_stored_piecewise(
        before,
        chunk,
        digest_envelope(plan.spec),
        ByteOrder::Little,
    );
    assert(before + chunk == samples.take((first + length) * channels));
    assert(upcoming.skip(count) == samples.skip((first + length) * channels));
    if let Ok(rest) = session_frames(plan, policy, predictors, samples, end) {
        assert(done + (frames + rest) == (done + frames) + rest);
    }
    let front = session_front(plan, policy, predictors, samples, end);
    assert(done + (frames + front) == (done + frames) + front);
}

proof fn lemma_chunk_is_fit(
    plan: PlanView,
    policy: EncodeChunkPolicy,
    samples: Seq<i32>,
    start: int,
)
    requires
        session_is_fit(plan, samples),
        plan.spec.channels >= 1,
        0 <= start <= chunk_end(plan.blocks, start, start, policy) <= plan.blocks.len(),
        block_offset(plan.blocks, start) * plan.spec.channels <= samples.len(),
    ensures
        ({
            let channels = plan.spec.channels as int;
            let upcoming = samples.skip(block_offset(plan.blocks, start) * channels);
            let frames = chunk_length(plan, policy, start);
            chunk_failure(plan.spec, upcoming, frames) is None ==> differences_fit(
                plan.spec,
                plan.effort,
                upcoming.take(frames * channels),
            )
        }),
{
    let channels = plan.spec.channels as int;
    let first = block_offset(plan.blocks, start) as int;
    let frames = chunk_length(plan, policy, start);
    let upcoming = samples.skip(first * channels);
    if chunk_failure(plan.spec, upcoming, frames) is None {
        assert(first * channels >= 0) by (nonlinear_arith)
            requires
                first >= 0,
                channels >= 0,
        ;
        lemma_mul_is_distributive_add_other_way(channels, first, frames as int);
        assert(frames * channels <= upcoming.len()) by {
            if frames * channels > upcoming.len() {
                vstd::arithmetic::div_mod::lemma_fundamental_div_mod(
                    upcoming.len() as int,
                    channels,
                );
                vstd::arithmetic::mul::lemma_mul_is_commutative(channels, frames as int);
            }
        }
        lemma_chunk_differences(plan, samples, first, frames as int);
    }
}

/// Encodes the planned frames of a stream, one chunk after the other.
#[verifier::rlimit(60)]
#[verifier::spinoff_prover]
pub fn encode_streaming_session<S: EncodePcmStream, P: ProgressSink>(
    plan: &EncodePlan,
    stream: &mut S,
    writer: &mut FlacWriter,
    progress: &mut P,
    md5: &mut StreaminfoMd5,
    policy: EncodeChunkPolicy,
    predictors: &[Vec<LpcPredictors>],
) -> (result: Result<()>)
    requires
        plan.is_valid(),
        old(stream).is_valid(),
        old(stream).description() == plan.description(),
        old(writer).is_valid(),
        old(md5).is_valid(),
        old(md5).layout() == digest_envelope(plan.description()),
        old(md5).digested() == Seq::<u8>::empty(),
        policy.max_frames >= 1,
        all_predictors_are_valid(predictors@),
        session_is_fit(plan@, old(stream).upcoming()),
    ensures
        failure_is_told(old(stream).failed(), final(stream).failed(), result),
        refusal_is_told(*old(progress), *final(progress), result),
        final(stream).is_valid(),
        final(stream).description() == old(stream).description(),
        final(writer).is_valid(),
        final(writer).before() == old(writer).before(),
        final(writer).first_info() == old(writer).first_info(),
        final(md5).is_valid(),
        result is Err ==> is_cut_off(
            session_front(plan@, policy, predictors@, old(stream).upcoming(), 0),
            0,
            plan@.spec,
            0,
            plan@.blocks.len() as usize,
            (*old(writer), *final(writer)),
            (old(progress).told(), final(progress).told()),
        ),
        ({
            let samples = old(stream).upcoming();
            let count = plan@.spec.total_samples * plan@.spec.channels;
            let session = session_frames(plan@, policy, predictors@, samples, 0);
            &&& old(stream).delivers() && old(progress).accepts() ==> {
                &&& final(stream).delivers()
                &&& match session {
                    Ok(_) => result is Ok,
                    Err(expected) => result matches Err(error) && error@ == expected,
                }
            }
            &&& old(progress).accepts() ==> (old(stream).breaks_off() matches Some(broken)
                ==> match session {
                Ok(_) => result is Ok,
                Err(expected) => result matches Err(error) && is_failure_of_broken(
                    expected,
                    broken,
                    error@,
                ),
            })
            &&& result is Ok ==> {
                &&& session matches Ok(frames)
                &&& old(stream).delivers() ==> final(stream).delivers()
                &&& count <= samples.len()
                &&& final(stream).upcoming() == samples.skip(count)
                &&& final(writer).after() == old(writer).after() + joined_frames(frames)
                &&& final(writer).info() == info_after(old(writer).info(), frames)
                &&& encoded_samples(
                    samples.take(count),
                    digest_envelope(plan@.spec),
                    ByteOrder::Little,
                ) == Ok::<Seq<u8>, ErrorView>(final(md5).digested())
                &&& final(md5).digested().len() <= 0x1000_0000_0000
                &&& final(progress).told() == old(progress).told() + snapshots_of(
                    frames,
                    0,
                    plan@.spec,
                    0,
                    plan@.blocks.len() as usize,
                    old(writer).written(),
                )
            }
        }),
{
    let total_frames: usize = plan.total_frames();
    let total_samples: u64 = plan.spec().total_samples;
    let ghost view = plan@;
    let ghost samples = stream.upcoming();
    let ghost delivers = stream.delivers();
    let ghost accepts = progress.accepts();
    let ghost bytes = writer.after();
    let ghost before = writer.before();
    let ghost written = writer.written();
    let ghost info = writer.info();
    let ghost told = progress.told();
    let ghost mut done: Seq<FrameView> = Seq::empty();
    let mut processed_samples: u64 = 0;
    let mut chunk_start: usize = 0;
    let mut buffer: Vec<i32> = Vec::new();
    proof {
        plan.lemma_description();
        lemma_session_starts(view, policy, predictors@, samples);
        assert(0 * (view.spec.channels as int) == 0);
        assert(samples.skip(0) == samples);
        assert(bytes + joined_frames(done) == bytes);
        assert(told + snapshots_of(done, 0, view.spec, 0, total_frames, written) == told);
    }
    while chunk_start < total_frames
        invariant
            plan.is_valid(),
            view == plan@,
            total_frames == view.blocks.len(),
            total_samples == view.spec.total_samples,
            1 <= view.spec.channels <= 8,
            total_samples < 0x10_0000_0000,
            blocks_total(view.blocks) == total_samples,
            policy.max_frames >= 1,
            all_predictors_are_valid(predictors@),
            session_is_fit(view, samples),
            samples == old(stream).upcoming(),
            delivers == old(stream).delivers(),
            accepts == old(progress).accepts(),
            before == old(writer).before(),
            writer.first_info() == old(writer).first_info(),
            bytes == old(writer).after(),
            told == old(progress).told(),
            written == old(writer).written(),
            written == before.len() + STREAMINFO_LENGTH as nat + bytes.len(),
            old(stream).description() == plan.description(),
            stream.is_valid(),
            stream.description() == plan.description(),
            delivers ==> stream.delivers(),
            old(stream).breaks_off() is Some ==> stream.breaks_off() == old(stream).breaks_off(),
            accepts ==> progress.accepts(),
            stream.failed() == old(stream).failed(),
            progress.refused() == old(progress).refused(),
            stream.upcoming() == samples.skip(
                block_offset(view.blocks, chunk_start as int) * view.spec.channels,
            ),
            md5.is_valid(),
            md5.layout() == digest_envelope(view.spec),
            session_state(
                view,
                policy,
                predictors@,
                samples,
                chunk_start as int,
                done,
                md5.digested(),
            ),
            processed_samples == block_offset(view.blocks, chunk_start as int),
            writer.is_valid(),
            writer.before() == before,
            writer.after() == bytes + joined_frames(done),
            writer.info() == info_after(info, done),
            progress.told() == told + snapshots_of(
                done,
                0,
                view.spec,
                0,
                total_frames,
                written,
            ),
        decreases total_frames - chunk_start,
    {
        let ghost digested = md5.digested();
        let ghost start = chunk_start as int;
        let ghost upcoming = stream.upcoming();
        let end: usize = chunk_end_for_plan(plan, chunk_start, policy);
        proof {
            lemma_digested_size(view, policy, predictors@, samples, start, done, digested);
            lemma_chunk_is_fit(view, policy, samples, start);
        }
        let chunk = match encode_next_chunk(
            stream,
            plan,
            chunk_start,
            policy,
            md5,
            &mut buffer,
            predictors,
        ) {
            Ok(chunk) => chunk,
            Err(error) => {
                proof {
                    lemma_cut_off_between(
                        done,
                        session_front(view, policy, predictors@, samples, start),
                        view.spec,
                        total_frames,
                        (*old(writer), *writer),
                        (told, progress.told()),
                    );
                }
                return Err(error);
            },
        };
        let ghost frames = frame_views(chunk.frames@);
        proof {
            let count = chunk_length(view, policy, start) * view.spec.channels;
            let more = encoded_samples(
                upcoming.take(count),
                digest_envelope(view.spec),
                ByteOrder::Little,
            )->Ok_0;
            lemma_session_goes_on(
                view,
                policy,
                predictors@,
                samples,
                start,
                done,
                digested,
                frames,
                more,
            );
            lemma_offsets_grow(view.blocks, end as int, view.blocks.len() as int);
            lemma_joined_more(done, frames, info);
            lemma_snapshots_more(done, frames, view.spec, total_frames, written, info);
        }
        let ghost midway = *writer;
        let ghost told_midway = progress.told();
        processed_samples = match write_encoded_chunk(
            writer,
            &chunk,
            processed_samples,
            plan.spec(),
            total_frames,
            progress,
        ) {
            Ok(processed) => processed,
            Err(error) => {
                proof {
                    lemma_cut_off_within(
                        done,
                        frames,
                        session_front(view, policy, predictors@, samples, end as int),
                        view.spec,
                        total_frames,
                        (*old(writer), midway, *writer),
                        (told, told_midway, progress.told()),
                        info,
                    );
                }
                return Err(error);
            },
        };
        proof {
            assert(bytes + joined_frames(done) + joined_frames(frames) == bytes + joined_frames(
                done + frames,
            ));
            assert(progress.told() == told + snapshots_of(
                done + frames,
                0,
                view.spec,
                0,
                total_frames,
                written,
            ));
            done = done + frames;
        }
        chunk_start = end;
    }
    proof {
        lemma_offsets_grow(view.blocks, chunk_start as int, view.blocks.len() as int);
        lemma_digested_size(
            view,
            policy,
            predictors@,
            samples,
            chunk_start as int,
            done,
            md5.digested(),
        );
        assert(done + Seq::<FrameView>::empty() == done);
    }
    Ok(())
}

} // verus!
