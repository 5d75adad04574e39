//! From decoded samples to a PCM container.

use vstd::prelude::*;

use crate::aiff_round_trip::law_samples_are_stored_piecewise;
use crate::bytes::append_bytes;
use crate::config::DecodeConfig;
use crate::error::{failure_is_told, Error, ErrorView, Result};
use crate::md5::{digest_envelope, is_unknown_digest, md5_of, streaminfo_digest, verify_streaminfo_digest, StreaminfoMd5};
use crate::metadata::{emitted, Metadata, MetadataView};
use crate::pcm::{encoded_samples, lemma_front_is_stored, lemma_encoded_samples_len, ByteOrder, PcmContainer, PcmEnvelope, PcmSpec};
use crate::pcm_output::{container_file, family_for, family_head, family_order, family_tail, output_family, write_container, OutputFamily, StreamingPcmWriter};
use crate::progress::{refusal_is_told, ProgressSink, ProgressSnapshot};
use crate::stream::{frames_due, handed_out};
use crate::stream_info::StreamInfo;

verus! {

/// Streams of at most this many samples per channel are decoded at once.
pub const EAGER_DECODE_TOTAL_SAMPLES_THRESHOLD: u64 = 8_388_608;

/// The number of blocks that are decoded at a time.
pub const DECODE_CHUNK_FRAME_MULTIPLIER: usize = 1_024;

/// Summary of the PCM stream produced by a decode operation.
#[derive(Debug, Clone, Copy, PartialEq, Eq, Structural)]
pub struct DecodeSummary {
    /// Number of FLAC frames read from the input stream.
    pub frame_count: usize,
    /// Total output samples reconstructed from the FLAC stream.
    pub total_samples: u64,
    /// Maximum block size recorded in the input stream.
    pub block_size: u16,
    /// Smallest decoded frame size in bytes.
    pub min_frame_size: u32,
    /// Largest decoded frame size in bytes.
    pub max_frame_size: u32,
    /// Smallest decoded block size in samples.
    pub min_block_size: u16,
    /// Largest decoded block size in samples.
    pub max_block_size: u16,
    /// Sample rate of the decoded stream.
    pub sample_rate: u32,
    /// Number of channels in the decoded stream.
    pub channels: u8,
    /// Bits per sample recorded in the decoded stream.
    pub bits_per_sample: u8,
}

/// Whether a stream is decoded at once.
pub open spec fn is_decoded_at_once(total_samples: u64) -> bool {
    total_samples <= EAGER_DECODE_TOTAL_SAMPLES_THRESHOLD
}

/// Whether a stream is decoded at once.
pub fn should_materialize_decode(total_samples: u64) -> (at_once: bool)
    ensures
        at_once == is_decoded_at_once(total_samples),
{
    total_samples <= EAGER_DECODE_TOTAL_SAMPLES_THRESHOLD
}

/// The frames that are decoded at a time.
pub open spec fn decode_chunk_frames(info: StreamInfo) -> nat {
    let frames = (if info.max_block_size == 0 {
        1nat
    } else {
        info.max_block_size as nat
    }) * DECODE_CHUNK_FRAME_MULTIPLIER as nat;
    if frames > usize::MAX {
        usize::MAX as nat
    } else {
        frames
    }
}

/// The frames that are decoded at a time.
pub fn chunk_frames_for_stream(source_info: StreamInfo) -> (frames: usize)
    ensures
        frames == decode_chunk_frames(source_info),
        frames >= 1,
{
    let blocks: usize = if source_info.max_block_size == 0 {
        1
    } else {
        source_info.max_block_size as usize
    };
    match blocks.checked_mul(DECODE_CHUNK_FRAME_MULTIPLIER) {
        Some(frames) => frames,
        None => usize::MAX,
    }
}

/// The summary of a decoded stream.
pub open spec fn decoded_summary(info: StreamInfo, frame_count: usize) -> DecodeSummary {
    DecodeSummary {
        frame_count,
        total_samples: info.total_samples,
        block_size: info.max_block_size,
        min_frame_size: info.min_frame_size,
        max_frame_size: info.max_frame_size,
        min_block_size: info.min_block_size,
        max_block_size: info.max_block_size,
        sample_rate: info.sample_rate,
        channels: info.channels,
        bits_per_sample: info.bits_per_sample,
    }
}

/// The summary of a decoded stream.
pub fn summary_from_stream_info(stream_info: StreamInfo, frame_count: usize) -> (summary:
    DecodeSummary)
    ensures
        summary == decoded_summary(stream_info, frame_count),
{
    DecodeSummary {
        frame_count,
        total_samples: stream_info.total_samples,
        block_size: stream_info.max_block_size,
        min_frame_size: stream_info.min_frame_size,
        max_frame_size: stream_info.max_frame_size,
        min_block_size: stream_info.min_block_size,
        max_block_size: stream_info.max_block_size,
        sample_rate: stream_info.sample_rate,
        channels: stream_info.channels,
        bits_per_sample: stream_info.bits_per_sample,
    }
}

/// Single-pass source of decoded samples.
pub trait DecodePcmStream: Sized {
    /// The source keeps its own rules.
    spec fn is_valid(&self) -> bool;

    /// The description of the samples.
    spec fn description(&self) -> PcmSpec;

    /// What the FLAC stream says of itself.
    spec fn info(&self) -> StreamInfo;

    /// The samples that are still to come.
    spec fn upcoming(&self) -> Seq<i32>;

    /// No read fails or hands out fewer frames than it could.
    spec fn delivers(&self) -> bool;

    /// The error of the read that failed, if one did.
    spec fn failed(&self) -> Option<ErrorView>;

    /// All samples are there at once.
    spec fn is_whole(&self) -> bool;

    /// The FLAC frames of the stream.
    spec fn frame_total(&self) -> usize;

    /// The number of worker threads that reads may use.
    spec fn threads(&self) -> usize;

    /// The description of the samples.
    fn spec(&self) -> (spec: PcmSpec)
        requires
            self.is_valid(),
        ensures
            spec == self.description(),
    ;

    /// What the FLAC stream says of itself.
    fn stream_info(&self) -> (info: StreamInfo)
        requires
            self.is_valid(),
        ensures
            info == self.info(),
    ;

    /// The FLAC frames of the stream.
    fn total_input_frames(&self) -> (frames: usize)
        requires
            self.is_valid(),
        ensures
            frames == self.frame_total(),
    ;

    /// The FLAC frames read so far: all of them once no samples are left.
    fn completed_input_frames(&self) -> (frames: usize)
        requires
            self.is_valid(),
        ensures
            self.upcoming().len() < self.description().channels ==> frames == self.frame_total(),
    ;

    /// The bytes read so far.
    fn input_bytes_processed(&self) -> (bytes: u64)
        requires
            self.is_valid(),
    ;

    /// Sets the number of worker threads.
    fn set_threads(&mut self, threads: usize)
        requires
            old(self).is_valid(),
        ensures
            final(self).is_valid(),
            final(self).description() == old(self).description(),
            final(self).info() == old(self).info(),
            final(self).is_whole() == old(self).is_whole(),
            final(self).frame_total() == old(self).frame_total(),
            final(self).upcoming() == old(self).upcoming(),
            final(self).delivers() == old(self).delivers(),
            final(self).failed() == old(self).failed(),
            final(self).threads() == threads,
    ;

    /// Read up to `max_frames` interleaved PCM frames into `output`.
    fn read_chunk(&mut self, max_frames: usize, output: &mut Vec<i32>) -> (read: Result<usize>)
        requires
            old(self).is_valid(),
        ensures
            final(self).is_valid(),
            final(self).description() == old(self).description(),
            final(self).info() == old(self).info(),
            final(self).is_whole() == old(self).is_whole(),
            final(self).frame_total() == old(self).frame_total(),
            final(self).threads() == old(self).threads(),
            old(self).delivers() ==> read is Ok && final(self).delivers(),
            read is Ok ==> final(self).failed() == old(self).failed(),
            read matches Err(error) ==> final(self).failed() == Some(error@),
            read matches Ok(frames) ==> {
                &&& frames <= max_frames
                &&& old(self).delivers() ==> frames == frames_due(
                    old(self).upcoming().len(),
                    old(self).description().channels as nat,
                    max_frames as nat,
                )
                &&& exists|samples: Seq<i32>|
                    #![trigger old(output)@ + samples]
                    final(output)@ == old(output)@ + samples && handed_out(
                        old(self).upcoming(),
                        final(self).upcoming(),
                        old(self).description().channels as nat,
                        frames as nat,
                        samples,
                    )
            },
    ;

    /// Hands out all samples with the number of FLAC frames, if they are there at once.
    fn take_decoded_samples(&mut self) -> (taken: Result<Option<(Vec<i32>, usize)>>)
        requires
            old(self).is_valid(),
        ensures
            final(self).is_valid(),
            taken is Ok ==> final(self).failed() == old(self).failed(),
            taken matches Err(error) ==> final(self).failed() == Some(error@),
            final(self).description() == old(self).description(),
            final(self).info() == old(self).info(),
            final(self).is_whole() == old(self).is_whole(),
            final(self).frame_total() == old(self).frame_total(),
            final(self).threads() == old(self).threads(),
            old(self).delivers() ==> taken is Ok && final(self).delivers(),
            taken matches Ok(Some((samples, frames))) ==> {
                &&& old(self).is_whole()
                &&& samples@ == old(self).upcoming()
                &&& frames == old(self).frame_total()
            },
            taken matches Ok(None) ==> {
                &&& !old(self).is_whole()
                &&& final(self).upcoming() == old(self).upcoming()
                &&& final(self).delivers() == old(self).delivers()
            },
    ;
}

/// Whether samples can be stored does not depend on the order of their bytes.
proof fn lemma_order_does_not_matter(
    samples: Seq<i32>,
    envelope: PcmEnvelope,
    first: ByteOrder,
    second: ByteOrder,
)
    ensures
        match encoded_samples(samples, envelope, first) {
            Ok(_) => encoded_samples(samples, envelope, second) is Ok,
            Err(error) => encoded_samples(samples, envelope, second) == Err::<
                Seq<u8>,
                ErrorView,
            >(error),
        },
    decreases samples.len(),
{
    if samples.len() > 0 {
        lemma_order_does_not_matter(samples.drop_last(), envelope, first, second);
    }
}

/// A digest agrees with what a FLAC stream says.
pub open spec fn digest_agrees(md5: Seq<u8>, digest: Seq<u8>) -> bool {
    is_unknown_digest(md5) || digest == md5
}

/// The error of a digest that does not agree.
pub open spec fn digest_mismatch() -> ErrorView {
    ErrorView::InvalidFlac("STREAMINFO MD5 mismatch"@)
}

/// The file of samples that were decoded at once, or why there is none.
pub open spec fn whole_outcome(
    family: OutputFamily,
    spec: PcmSpec,
    md5: Seq<u8>,
    metadata: MetadataView,
    samples: Seq<i32>,
) -> std::result::Result<Seq<u8>, ErrorView> {
    match container_file(family, spec, samples, metadata) {
        Err(error) => Err(error),
        Ok(file) => match streaminfo_digest(spec, samples) {
            Err(error) => Err(error),
            Ok(digest) => if digest_agrees(md5, digest) {
                Ok(file)
            } else {
                Err(digest_mismatch())
            },
        },
    }
}

/// The file of samples that were decoded piece by piece, or why there is none.
pub open spec fn streamed_outcome(
    family: OutputFamily,
    spec: PcmSpec,
    md5: Seq<u8>,
    metadata: MetadataView,
    samples: Seq<i32>,
) -> std::result::Result<Seq<u8>, ErrorView> {
    match family_head(family, spec, metadata) {
        Err(error) => Err(error),
        Ok(head) => match encoded_samples(samples, digest_envelope(spec), family_order(family)) {
            Err(error) => Err(error),
            Ok(data) => match streaminfo_digest(spec, samples) {
                Err(error) => Err(error),
                Ok(digest) => if digest_agrees(md5, digest) {
                    Ok(head + data + family_tail(family, spec))
                } else {
                    Err(digest_mismatch())
                },
            },
        },
    }
}

/// The samples of whole frames.
pub open spec fn whole_frames(samples: Seq<i32>, channels: u8) -> Seq<i32> {
    samples.take((samples.len() / (channels as nat)) * (channels as int))
}

/// What a decode session knows of a stream before it reads.
pub struct StreamFacts {
    pub description: PcmSpec,
    pub info: StreamInfo,
    pub upcoming: Seq<i32>,
    pub delivers: bool,
    pub is_whole: bool,
    pub frame_total: usize,
}

/// What a decode session knows of a stream before it reads.
pub open spec fn facts_of<S: DecodePcmStream>(stream: S) -> StreamFacts {
    StreamFacts {
        description: stream.description(),
        info: stream.info(),
        upcoming: stream.upcoming(),
        delivers: stream.delivers(),
        is_whole: stream.is_whole(),
        frame_total: stream.frame_total(),
    }
}

/// The file that a stream is decoded to, or why there is none.
pub open spec fn decode_outcome(
    stream: StreamFacts,
    metadata: MetadataView,
    container: PcmContainer,
) -> std::result::Result<Seq<u8>, ErrorView> {
    let spec = stream.description;
    let family = output_family(container);
    if is_decoded_at_once(spec.total_samples) && stream.is_whole {
        whole_outcome(family, spec, stream.info.md5@, metadata, stream.upcoming)
    } else {
        streamed_outcome(
            family,
            spec,
            stream.info.md5@,
            metadata,
            whole_frames(stream.upcoming, spec.channels),
        )
    }
}

/// A file made of samples at the front of a stream.
pub open spec fn is_file_of(
    stream: StreamFacts,
    metadata: MetadataView,
    container: PcmContainer,
    file: Seq<u8>,
    count: int,
) -> bool {
    let spec = stream.description;
    let family = output_family(container);
    &&& 0 <= count <= stream.upcoming.len()
    &&& if is_decoded_at_once(spec.total_samples) && stream.is_whole {
        whole_outcome(family, spec, stream.info.md5@, metadata, stream.upcoming.take(count))
    } else {
        streamed_outcome(family, spec, stream.info.md5@, metadata, stream.upcoming.take(count))
    } == Ok::<Seq<u8>, ErrorView>(file)
}

/// What decoding a stream does. `accepts` tells that no report ends it.
pub open spec fn is_decoded(
    stream: StreamFacts,
    metadata: MetadataView,
    container: PcmContainer,
    before: Seq<u8>,
    after: Seq<u8>,
    accepts: bool,
    result: Result<DecodeSummary>,
) -> bool {
    &&& stream.delivers && accepts ==> match decode_outcome(stream, metadata, container) {
        Ok(file) => {
            &&& result == Ok::<DecodeSummary, Error>(
                decoded_summary(stream.info, stream.frame_total),
            )
            &&& after == before + file
        },
        Err(expected) => result matches Err(error) && error@ == expected,
    }
    &&& match result {
        Ok(summary) => {
            &&& summary == decoded_summary(stream.info, summary.frame_count)
            &&& exists|file: Seq<u8>, count: int|
                #![trigger is_file_of(stream, metadata, container, file, count)]
                is_file_of(stream, metadata, container, file, count) && after == before + file
        },
        Err(_) => file_is_left(stream, metadata, container, before, after),
    }
}

/// A file was written up to some samples, and perhaps to its end.
pub open spec fn is_front_of_file(
    stream: StreamFacts,
    metadata: MetadataView,
    family: OutputFamily,
    count: int,
    before: Seq<u8>,
    after: Seq<u8>,
) -> bool {
    let spec = stream.description;
    &&& 0 <= count <= stream.upcoming.len()
    &&& family_head(family, spec, metadata) matches Ok(head) && (encoded_samples(
        stream.upcoming.take(count),
        digest_envelope(spec),
        family_order(family),
    ) matches Ok(data) && {
        ||| after == before + (head + data)
        ||| after == before + (head + data + family_tail(family, spec))
    })
}

/// What decoding leaves that ends with an error: nothing, or a file or its front.
pub open spec fn file_is_left(
    stream: StreamFacts,
    metadata: MetadataView,
    container: PcmContainer,
    before: Seq<u8>,
    after: Seq<u8>,
) -> bool {
    let spec = stream.description;
    let family = output_family(container);
    ||| after == before
    ||| if is_decoded_at_once(spec.total_samples) && stream.is_whole {
        container_file(family, spec, stream.upcoming, metadata) matches Ok(file) && after == before
            + file
    } else {
        exists|count: int| #[trigger]
            is_front_of_file(stream, metadata, family, count, before, after)
    }
}

/// The frames that were read after a number of chunks.
pub open spec fn frames_after(chunks: nat, chunk_frames: nat, frames: nat) -> nat
    decreases chunks,
{
    if chunks == 0 {
        0
    } else {
        let sum = frames_after((chunks - 1) as nat, chunk_frames, frames) + chunk_frames;
        if sum <= frames {
            sum
        } else {
            frames
        }
    }
}

/// The bytes of a file that was written up to some samples.
pub open spec fn bytes_after(
    family: OutputFamily,
    spec: PcmSpec,
    metadata: MetadataView,
    samples: Seq<i32>,
) -> nat {
    family_head(family, spec, metadata)->Ok_0.len() + encoded_samples(
        samples,
        digest_envelope(spec),
        family_order(family),
    )->Ok_0.len()
}

/// A report after a chunk: all but the frames and bytes that only the stream knows.
pub open spec fn is_chunk_report(
    stream: StreamFacts,
    metadata: MetadataView,
    family: OutputFamily,
    processed: nat,
    report: ProgressSnapshot,
) -> bool {
    let spec = stream.description;
    &&& report.processed_samples == processed
    &&& report.total_samples == spec.total_samples
    &&& report.total_frames == stream.frame_total
    &&& report.output_bytes_written == bytes_after(
        family,
        spec,
        metadata,
        stream.upcoming.take((processed * spec.channels) as int),
    ) as u64
}

/// Reports after chunks: each tells of more samples than those before it. Of a stream that
/// delivers they tell chunk by chunk.
pub open spec fn chunks_are_reported(
    stream: StreamFacts,
    metadata: MetadataView,
    family: OutputFamily,
    chunks: nat,
    before: Seq<ProgressSnapshot>,
    after: Seq<ProgressSnapshot>,
) -> bool {
    let frames = stream.upcoming.len() / (stream.description.channels as nat);
    let chunk_frames = decode_chunk_frames(stream.info);
    &&& before.len() + chunks <= after.len()
    &&& after.take(before.len() as int) == before
    &&& forall|i: int|
        0 <= i < chunks ==> is_chunk_report(
            stream,
            metadata,
            family,
            (#[trigger] after[before.len() + i]).processed_samples as nat,
            after[before.len() + i],
        )
    &&& forall|i: int, j: int|
        0 <= i < j < chunks ==> (#[trigger] after[before.len() + i]).processed_samples < (
        #[trigger] after[before.len() + j]).processed_samples
    &&& stream.delivers ==> forall|i: int|
        0 <= i < chunks ==> (#[trigger] after[before.len() + i]).processed_samples == frames_after(
            (i + 1) as nat,
            chunk_frames,
            frames,
        )
}

/// The samples per channel that the reports after chunks tell of.
pub open spec fn samples_told(
    chunks: nat,
    before: Seq<ProgressSnapshot>,
    after: Seq<ProgressSnapshot>,
) -> nat {
    if chunks == 0 {
        0
    } else {
        after[before.len() + chunks - 1].processed_samples as nat
    }
}

/// A session ended with an error before its file did. All that was told of is written.
pub open spec fn is_broken_off(
    stream: StreamFacts,
    metadata: MetadataView,
    family: OutputFamily,
    chunks: nat,
    count: int,
    outputs: (Seq<u8>, Seq<u8>),
    told: (Seq<ProgressSnapshot>, Seq<ProgressSnapshot>),
) -> bool {
    let spec = stream.description;
    &&& chunks_are_reported(stream, metadata, family, chunks, told.0, told.1)
    &&& told.1.len() == told.0.len() + chunks
    &&& samples_told(chunks, told.0, told.1) * spec.channels <= count <= stream.upcoming.len()
    &&& family_head(family, spec, metadata) matches Ok(head) && (encoded_samples(
        stream.upcoming.take(count),
        digest_envelope(spec),
        family_order(family),
    ) matches Ok(data) && outputs.1 == outputs.0 + (head + data))
}

/// A session ended with an error when its file was complete, with a last report on it.
pub open spec fn is_refused_at_end(
    stream: StreamFacts,
    metadata: MetadataView,
    family: OutputFamily,
    chunks: nat,
    outputs: (Seq<u8>, Seq<u8>),
    told: (Seq<ProgressSnapshot>, Seq<ProgressSnapshot>),
) -> bool {
    let spec = stream.description;
    let processed = samples_told(chunks, told.0, told.1);
    &&& chunks_are_reported(stream, metadata, family, chunks, told.0, told.1)
    &&& told.1.len() == told.0.len() + chunks + 1
    &&& told.1.last().processed_samples == processed
    &&& told.1.last().total_samples == spec.total_samples
    &&& told.1.last().total_frames == stream.frame_total
    &&& told.1.last().output_bytes_written == outputs.1.len() as u64
    &&& processed * spec.channels <= stream.upcoming.len()
    &&& family_head(family, spec, metadata) matches Ok(head) && (encoded_samples(
        stream.upcoming.take((processed * spec.channels) as int),
        digest_envelope(spec),
        family_order(family),
    ) matches Ok(data) && outputs.1 == outputs.0 + (head + data + family_tail(family, spec)))
}

/// What a session that decodes piece by piece has told and left when it ends with an error.
pub open spec fn streaming_is_given_up(
    stream: StreamFacts,
    metadata: MetadataView,
    family: OutputFamily,
    outputs: (Seq<u8>, Seq<u8>),
    told: (Seq<ProgressSnapshot>, Seq<ProgressSnapshot>),
) -> bool {
    if family_head(family, stream.description, metadata) is Err {
        outputs.1 == outputs.0 && told.1 == told.0
    } else {
        ||| exists|chunks: nat, count: int| #[trigger]
            is_broken_off(stream, metadata, family, chunks, count, outputs, told)
        ||| exists|chunks: nat| #[trigger]
            is_refused_at_end(stream, metadata, family, chunks, outputs, told)
    }
}

/// What a session has told and left when it ends with an error: no report follows one that
/// was refused, and none is repeated.
pub open spec fn decode_is_given_up(
    stream: StreamFacts,
    metadata: MetadataView,
    container: PcmContainer,
    outputs: (Seq<u8>, Seq<u8>),
    told: (Seq<ProgressSnapshot>, Seq<ProgressSnapshot>),
) -> bool {
    let spec = stream.description;
    let family = output_family(container);
    if is_decoded_at_once(spec.total_samples) && stream.is_whole {
        let file = container_file(family, spec, stream.upcoming, metadata);
        ||| (file is Err || !stream.delivers) && outputs.1 == outputs.0 && told.1 == told.0
        ||| {
            &&& file matches Ok(bytes) && outputs.1 == outputs.0 + bytes
            &&& told.1.len() == told.0.len() + 1
            &&& told.1.drop_last() == told.0
            &&& is_last_report(stream, spec.total_samples, outputs.1.len(), told.1.last())
        }
    } else {
        ||| !stream.delivers && outputs.1 == outputs.0 && told.1 == told.0
        ||| streaming_is_given_up(stream, metadata, family, outputs, told)
    }
}

/// One more chunk was told of.
proof fn lemma_one_more_report(
    stream: StreamFacts,
    metadata: MetadataView,
    family: OutputFamily,
    chunks: nat,
    before: Seq<ProgressSnapshot>,
    earlier: Seq<ProgressSnapshot>,
    report: ProgressSnapshot,
)
    requires
        chunks_are_reported(stream, metadata, family, chunks, before, earlier),
        earlier.len() == before.len() + chunks,
        samples_told(chunks, before, earlier) < report.processed_samples,
        is_chunk_report(stream, metadata, family, report.processed_samples as nat, report),
        stream.delivers ==> report.processed_samples == frames_after(
            chunks + 1,
            decode_chunk_frames(stream.info),
            stream.upcoming.len() / (stream.description.channels as nat),
        ),
    ensures
        chunks_are_reported(stream, metadata, family, chunks + 1, before, earlier.push(report)),
        samples_told(chunks + 1, before, earlier.push(report)) == report.processed_samples,
{
    let after = earlier.push(report);
    let base = before.len() as int;
    assert(after.take(base) == earlier.take(base));
    assert forall|i: int, j: int| 0 <= i < j < chunks + 1 implies (
    #[trigger] after[base + i]).processed_samples < (#[trigger] after[base + j]).processed_samples by {
        assert(after[base + i] == earlier[base + i]);
        if j < chunks {
            assert(after[base + j] == earlier[base + j]);
        } else if i < chunks - 1 {
            assert(earlier[base + i].processed_samples < earlier[base + (chunks
                - 1)].processed_samples);
        }
    }
    assert forall|i: int| 0 <= i < chunks + 1 implies is_chunk_report(
        stream,
        metadata,
        family,
        (#[trigger] after[base + i]).processed_samples as nat,
        after[base + i],
    ) by {
        if i < chunks {
            assert(after[base + i] == earlier[base + i]);
        }
    }
    if stream.delivers {
        assert forall|i: int| 0 <= i < chunks + 1 implies (
        #[trigger] after[base + i]).processed_samples == frames_after(
            (i + 1) as nat,
            decode_chunk_frames(stream.info),
            stream.upcoming.len() / (stream.description.channels as nat),
        ) by {
            if i < chunks {
                assert(after[base + i] == earlier[base + i]);
            }
        }
    }
}

/// A last report does not change what was told of chunks.
proof fn lemma_last_report(
    stream: StreamFacts,
    metadata: MetadataView,
    family: OutputFamily,
    chunks: nat,
    before: Seq<ProgressSnapshot>,
    earlier: Seq<ProgressSnapshot>,
    report: ProgressSnapshot,
)
    requires
        chunks_are_reported(stream, metadata, family, chunks, before, earlier),
        earlier.len() == before.len() + chunks,
    ensures
        chunks_are_reported(stream, metadata, family, chunks, before, earlier.push(report)),
        samples_told(chunks, before, earlier.push(report)) == samples_told(chunks, before, earlier),
{
    let after = earlier.push(report);
    let base = before.len() as int;
    assert(after.take(base) == earlier.take(base));
    assert forall|i: int| 0 <= i < chunks implies #[trigger] after[base + i] == earlier[base
        + i] by {}
}

/// The report at the end: all but the bytes that only the stream knows. `file` is the
/// place in the output behind the file.
pub open spec fn is_last_report(
    stream: StreamFacts,
    processed: u64,
    file: nat,
    report: ProgressSnapshot,
) -> bool {
    report == ProgressSnapshot {
        processed_samples: processed,
        total_samples: stream.description.total_samples,
        completed_frames: stream.frame_total,
        total_frames: stream.frame_total,
        input_bytes_read: report.input_bytes_read,
        output_bytes_written: file as u64,
    }
}

/// The reports on a stream that was decoded piece by piece: one after each chunk, and
/// one at the end.
pub open spec fn chunks_are_told(
    stream: StreamFacts,
    metadata: MetadataView,
    family: OutputFamily,
    file: nat,
    before: Seq<ProgressSnapshot>,
    after: Seq<ProgressSnapshot>,
) -> bool {
    let frames = stream.upcoming.len() / (stream.description.channels as nat);
    let chunk_frames = decode_chunk_frames(stream.info);
    let chunks = after.len() - before.len() - 1;
    &&& chunks >= 0
    &&& frames_after(chunks as nat, chunk_frames, frames) == frames
    &&& chunks > 0 ==> frames_after((chunks - 1) as nat, chunk_frames, frames) < frames
    &&& after.take(before.len() as int) == before
    &&& forall|i: int|
        0 <= i < chunks ==> is_chunk_report(
            stream,
            metadata,
            family,
            frames_after((i + 1) as nat, chunk_frames, frames),
            #[trigger] after[before.len() + i],
        )
    &&& is_last_report(stream, frames as u64, file, after.last())
}

/// What is told of a stream that was decoded to a file.
pub open spec fn decode_is_told(
    stream: StreamFacts,
    metadata: MetadataView,
    container: PcmContainer,
    file: nat,
    before: Seq<ProgressSnapshot>,
    after: Seq<ProgressSnapshot>,
) -> bool {
    let spec = stream.description;
    let family = output_family(container);
    if is_decoded_at_once(spec.total_samples) && stream.is_whole {
        &&& after.len() == before.len() + 1
        &&& after.drop_last() == before
        &&& is_last_report(stream, spec.total_samples, file, after.last())
    } else {
        stream.delivers ==> chunks_are_told(stream, metadata, family, file, before, after)
    }
}

/// Decodes the samples of a stream at once.
fn decode_whole<P: ProgressSink>(
    output: &mut Vec<u8>,
    family: OutputFamily,
    spec: PcmSpec,
    info: StreamInfo,
    metadata: &Metadata,
    samples: &[i32],
    frames: usize,
    input_bytes_read: u64,
    progress: &mut P,
) -> (result: Result<DecodeSummary>)
    requires
        samples@.len() * 32 <= u64::MAX,
    ensures
        refusal_is_told(*old(progress), *final(progress), result),
        ({
            let outcome = whole_outcome(family, spec, info.md5@, metadata@, samples@);
            &&& old(progress).accepts() ==> match outcome {
                Ok(_) => result is Ok,
                Err(expected) => result matches Err(error) && error@ == expected,
            }
            &&& match result {
                Ok(summary) => {
                    &&& summary == decoded_summary(info, frames)
                    &&& outcome matches Ok(file) && final(output)@ == old(output)@ + file
                    &&& final(progress).told() == old(progress).told().push(
                        ProgressSnapshot {
                            processed_samples: spec.total_samples,
                            total_samples: spec.total_samples,
                            completed_frames: frames,
                            total_frames: frames,
                            input_bytes_read,
                            output_bytes_written: final(output)@.len() as u64,
                        },
                    )
                },
                Err(_) => match container_file(family, spec, samples@, metadata@) {
                    Err(_) => {
                        &&& final(output)@ == old(output)@
                        &&& final(progress).told() == old(progress).told()
                    },
                    Ok(file) => {
                        &&& final(output)@ == old(output)@ + file
                        &&& final(progress).told() == old(progress).told().push(
                            ProgressSnapshot {
                                processed_samples: spec.total_samples,
                                total_samples: spec.total_samples,
                                completed_frames: frames,
                                total_frames: frames,
                                input_bytes_read,
                                output_bytes_written: final(output)@.len() as u64,
                            },
                        )
                    },
                },
            }
        }),
{
    let digest = match write_container(output, family, spec, samples, metadata) {
        Ok(digest) => digest,
        Err(error) => return Err(error),
    };
    let snapshot = ProgressSnapshot {
        processed_samples: spec.total_samples,
        total_samples: spec.total_samples,
        completed_frames: frames,
        total_frames: frames,
        input_bytes_read,
        output_bytes_written: output.len() as u64,
    };
    match progress.on_frame(snapshot) {
        Ok(()) => {},
        Err(error) => return Err(error),
    }
    match verify_streaminfo_digest(digest.as_slice(), info.md5.as_slice()) {
        Ok(()) => {},
        Err(error) => return Err(error),
    }
    Ok(summary_from_stream_info(info, frames))
}

/// What holds between two reads of a stream that is decoded piece by piece.
spec fn streaming_state(
    family: OutputFamily,
    spec: PcmSpec,
    head: Seq<u8>,
    samples: Seq<i32>,
    count: int,
    written: Seq<u8>,
    digested: Seq<u8>,
) -> bool {
    let envelope = digest_envelope(spec);
    let done = samples.take(count);
    &&& 0 <= count <= samples.len()
    &&& encoded_samples(done, envelope, family_order(family)) matches Ok(data) && written == head
        + data
    &&& encoded_samples(done, envelope, ByteOrder::Little) == Ok::<Seq<u8>, ErrorView>(digested)
}

proof fn lemma_streaming_goes_on(
    family: OutputFamily,
    spec: PcmSpec,
    head: Seq<u8>,
    samples: Seq<i32>,
    count: int,
    written: Seq<u8>,
    digested: Seq<u8>,
    chunk: Seq<i32>,
)
    requires
        streaming_state(family, spec, head, samples, count, written, digested),
        count + chunk.len() <= samples.len(),
        chunk == samples.subrange(count, count + chunk.len()),
    ensures
        match encoded_samples(chunk, digest_envelope(spec), family_order(family)) {
            Ok(data) => {
                &&& encoded_samples(chunk, digest_envelope(spec), ByteOrder::Little) matches Ok(
                    more,
                )
                &&& streaming_state(
                    family,
                    spec,
                    head,
                    samples,
                    count + chunk.len(),
                    written + data,
                    digested + more,
                )
            },
            Err(error) => forall|end: int|
                count + chunk.len() <= end <= samples.len() ==> encoded_samples(
                    #[trigger] samples.take(end),
                    digest_envelope(spec),
                    family_order(family),
                ) == Err::<Seq<u8>, ErrorView>(error),
        },
{
    let envelope = digest_envelope(spec);
    let order = family_order(family);
    let done = samples.take(count);
    let later = samples.take(count + chunk.len());
    assert(later == done + chunk);
    law_samples_are_stored_piecewise(done, chunk, envelope, order);
    law_samples_are_stored_piecewise(done, chunk, envelope, ByteOrder::Little);
    lemma_order_does_not_matter(chunk, envelope, order, ByteOrder::Little);
    if let Ok(data) = encoded_samples(chunk, envelope, order) {
        let before = encoded_samples(done, envelope, order)->Ok_0;
        assert(head + before + data == head + (before + data));
    } else {
        assert forall|end: int| count + chunk.len() <= end <= samples.len() implies encoded_samples(
            #[trigger] samples.take(end),
            envelope,
            order,
        ) == encoded_samples(later, envelope, order) by {
            let whole = samples.take(end);
            assert(whole.take(count + chunk.len()) == later);
            crate::pcm::lemma_encoded_samples_fail(
                whole,
                envelope,
                order,
                (count + chunk.len()) as int,
            );
        }
    }
}

/// The digest of what was digested agrees exactly if the stream's samples do.
proof fn lemma_streamed_end(
    family: OutputFamily,
    spec: PcmSpec,
    info: StreamInfo,
    metadata: MetadataView,
    head: Seq<u8>,
    samples: Seq<i32>,
    count: int,
    written: Seq<u8>,
    digested: Seq<u8>,
)
    requires
        family_head(family, spec, metadata) == Ok::<Seq<u8>, ErrorView>(head),
        streaming_state(family, spec, head, samples, count, written, digested),
    ensures
        streamed_outcome(family, spec, info.md5@, metadata, samples.take(count)) == if digest_agrees(
            info.md5@,
            md5_of(digested),
        ) {
            Ok::<Seq<u8>, ErrorView>(written + family_tail(family, spec))
        } else {
            Err(digest_mismatch())
        },
{
}

/// A head is only written for samples that have channels.
proof fn lemma_head_has_channels(family: OutputFamily, spec: PcmSpec, metadata: MetadataView)
    ensures
        family_head(family, spec, metadata) is Ok ==> spec.channels >= 1,
{
}

/// The samples handed out so far are those of whole frames.
proof fn lemma_all_frames_read(samples: Seq<i32>, channels: u8, frames: nat)
    requires
        channels >= 1,
        frames * channels <= samples.len(),
        samples.len() - frames * channels < channels,
    ensures
        samples.take((frames * channels) as int) == whole_frames(samples, channels),
        frames == samples.len() / (channels as nat),
{
    let unit = channels as int;
    vstd::arithmetic::div_mod::lemma_fundamental_div_mod_converse(
        samples.len() as int,
        unit,
        frames as int,
        samples.len() - frames * unit,
    );
}

/// Frames that were read are no more than there are.
proof fn lemma_frames_in_whole(samples: nat, channels: u8, frames: nat)
    requires
        channels >= 1,
        frames * channels <= samples,
    ensures
        frames * channels <= (samples / (channels as nat)) * channels <= samples,
{
    let unit = channels as int;
    vstd::arithmetic::div_mod::lemma_div_is_ordered(frames * unit, samples as int, unit);
    vstd::arithmetic::div_mod::lemma_div_by_multiple(frames as int, unit);
    vstd::arithmetic::mul::lemma_mul_inequality(frames as int, samples as int / unit, unit);
    vstd::arithmetic::div_mod::lemma_fundamental_div_mod(samples as int, unit);
    vstd::arithmetic::mul::lemma_mul_is_commutative(unit, samples as int / unit);
}

/// A read hands out a whole chunk, or what is left.
proof fn lemma_frames_due(samples: nat, channels: u8, done: nat, chunk_frames: nat)
    requires
        channels >= 1,
        done * channels <= samples,
    ensures
        ({
            let frames = samples / (channels as nat);
            &&& done <= frames
            &&& frames_due((samples - done * channels) as nat, channels as nat, chunk_frames)
                == if done + chunk_frames <= frames {
                chunk_frames
            } else {
                (frames - done) as nat
            }
        }),
{
    let unit = channels as int;
    let frames = samples as int / unit;
    let left = samples - done * unit;
    vstd::arithmetic::div_mod::lemma_fundamental_div_mod(samples as int, unit);
    vstd::arithmetic::div_mod::lemma_mod_bound(samples as int, unit);
    assert((frames - done) * unit == frames * unit - done * unit) by (nonlinear_arith);
    assert((frames + 1) * unit == frames * unit + unit) by (nonlinear_arith);
    vstd::arithmetic::mul::lemma_mul_is_commutative(unit, frames);
    assert(done <= frames) by (nonlinear_arith)
        requires
            done * unit < (frames + 1) * unit,
            unit >= 1,
    ;
    vstd::arithmetic::div_mod::lemma_fundamental_div_mod_converse(
        left,
        unit,
        frames - done,
        samples as int % unit,
    );
    let chunk = chunk_frames as int;
    if done + chunk <= frames {
        assert(chunk * unit <= left) by (nonlinear_arith)
            requires
                chunk <= frames - done,
                (frames - done) * unit <= left,
                unit >= 1,
        ;
    } else {
        assert(chunk * unit > left) by (nonlinear_arith)
            requires
                chunk >= frames - done + 1,
                left < (frames - done) * unit + unit,
                unit >= 1,
        ;
    }
}

/// The size of what was digested.
proof fn lemma_digested_size(samples: Seq<i32>, spec: PcmSpec, digested: Seq<u8>)
    requires
        encoded_samples(samples, digest_envelope(spec), ByteOrder::Little) == Ok::<
            Seq<u8>,
            ErrorView,
        >(digested),
    ensures
        digested.len() <= 4 * samples.len(),
{
    lemma_encoded_samples_len(samples, digest_envelope(spec), ByteOrder::Little);
    let width = (digest_envelope(spec).container_bits_per_sample / 8) as int;
    assert(samples.len() * width <= samples.len() * 4) by (nonlinear_arith)
        requires
            width <= 4,
    ;
}

/// What decoding a stream piece by piece does.
spec fn pieces_are_decoded(
    stream: StreamFacts,
    metadata: MetadataView,
    family: OutputFamily,
    accepts: bool,
    outputs: (Seq<u8>, Seq<u8>),
    told: (Seq<ProgressSnapshot>, Seq<ProgressSnapshot>),
    result: Result<DecodeSummary>,
) -> bool {
    let spec = stream.description;
    let info = stream.info;
    let samples = stream.upcoming;
    &&& stream.delivers && accepts ==> match streamed_outcome(
        family,
        spec,
        info.md5@,
        metadata,
        whole_frames(samples, spec.channels),
    ) {
        Ok(file) => {
            &&& result == Ok::<DecodeSummary, Error>(decoded_summary(info, stream.frame_total))
            &&& outputs.1 == outputs.0 + file
        },
        Err(expected) => result matches Err(error) && error@ == expected,
    }
    &&& match result {
        Ok(summary) => {
            &&& summary == decoded_summary(info, summary.frame_count)
            &&& exists|count: int| #[trigger]
                front_is_decoded(stream, metadata, family, count, outputs)
            &&& stream.delivers ==> chunks_are_told(
                stream,
                metadata,
                family,
                outputs.1.len(),
                told.0,
                told.1,
            )
        },
        Err(_) => streaming_is_given_up(stream, metadata, family, outputs, told),
    }
}

/// The samples at the front of a stream were decoded to a file.
spec fn front_is_decoded(
    stream: StreamFacts,
    metadata: MetadataView,
    family: OutputFamily,
    count: int,
    outputs: (Seq<u8>, Seq<u8>),
) -> bool {
    &&& 0 <= count <= stream.upcoming.len()
    &&& streamed_outcome(
        family,
        stream.description,
        stream.info.md5@,
        metadata,
        stream.upcoming.take(count),
    ) matches Ok(file) && outputs.1 == outputs.0 + file
}

/// A stream that was decoded piece by piece was decoded.
proof fn lemma_pieces_are_decoded(
    stream: StreamFacts,
    metadata: MetadataView,
    container: PcmContainer,
    accepts: bool,
    outputs: (Seq<u8>, Seq<u8>),
    told: (Seq<ProgressSnapshot>, Seq<ProgressSnapshot>),
    result: Result<DecodeSummary>,
)
    requires
        !(is_decoded_at_once(stream.description.total_samples) && stream.is_whole),
        pieces_are_decoded(
            stream,
            metadata,
            output_family(container),
            accepts,
            outputs,
            told,
            result,
        ),
    ensures
        is_decoded(stream, metadata, container, outputs.0, outputs.1, accepts, result),
        result is Ok ==> decode_is_told(
            stream,
            metadata,
            container,
            outputs.1.len(),
            told.0,
            told.1,
        ),
        result is Err ==> decode_is_given_up(stream, metadata, container, outputs, told),
{
    let family = output_family(container);
    if result is Ok {
        let count = choose|count: int| #[trigger]
            front_is_decoded(stream, metadata, family, count, outputs);
        let file = streamed_outcome(
            family,
            stream.description,
            stream.info.md5@,
            metadata,
            stream.upcoming.take(count),
        )->Ok_0;
        assert(is_file_of(stream, metadata, container, file, count));
    } else {
        lemma_front_is_left(stream, metadata, family, outputs, told);
    }
}

/// A chunk was written up to a sample that cannot be stored.
proof fn lemma_front_of_chunk(
    family: OutputFamily,
    spec: PcmSpec,
    head: Seq<u8>,
    samples: Seq<i32>,
    count: int,
    written: Seq<u8>,
    chunk: Seq<i32>,
    part: int,
    after: Seq<u8>,
)
    requires
        0 <= count,
        count + chunk.len() <= samples.len(),
        chunk == samples.subrange(count, count + chunk.len()),
        encoded_samples(samples.take(count), digest_envelope(spec), family_order(family)) matches Ok(
            data,
        ) && written == head + data,
        0 <= part <= chunk.len(),
        encoded_samples(
            chunk.take(part),
            digest_envelope(spec),
            family_order(family),
        ) matches Ok(more) && after == written + more,
    ensures
        encoded_samples(
            samples.take(count + part),
            digest_envelope(spec),
            family_order(family),
        ) matches Ok(data) && after == head + data,
{
    law_samples_are_stored_piecewise(
        samples.take(count),
        chunk.take(part),
        digest_envelope(spec),
        family_order(family),
    );
    assert(samples.take(count) + chunk.take(part) == samples.take(count + part));
    let data = encoded_samples(
        samples.take(count),
        digest_envelope(spec),
        family_order(family),
    )->Ok_0;
    let more = encoded_samples(chunk.take(part), digest_envelope(spec), family_order(family))->Ok_0;
    assert(head + data + more == head + (data + more));
}

/// Leaves what was written of a file.
fn leave_file(
    writer: StreamingPcmWriter,
    output: &mut Vec<u8>,
    Ghost(stream): Ghost<StreamFacts>,
    Ghost(named): Ghost<(MetadataView, OutputFamily)>,
    Ghost(chunks): Ghost<nat>,
    Ghost(count): Ghost<int>,
    Ghost(told): Ghost<(Seq<ProgressSnapshot>, Seq<ProgressSnapshot>)>,
)
    requires
        chunks_are_reported(stream, named.0, named.1, chunks, told.0, told.1),
        told.1.len() == told.0.len() + chunks,
        samples_told(chunks, told.0, told.1) * stream.description.channels <= count
            <= stream.upcoming.len(),
        family_head(named.1, stream.description, named.0) matches Ok(head) && (encoded_samples(
            stream.upcoming.take(count),
            digest_envelope(stream.description),
            family_order(named.1),
        ) matches Ok(data) && writer.written() == head + data),
    ensures
        streaming_is_given_up(
            stream,
            named.0,
            named.1,
            (old(output)@, final(output)@),
            told,
        ),
{
    let bytes = writer.into_unfinished();
    append_bytes(output, bytes.as_slice());
    assert(is_broken_off(
        stream,
        named.0,
        named.1,
        chunks,
        count,
        (old(output)@, output@),
        told,
    ));
}

/// Decodes the samples of a stream piece by piece.
#[verifier::rlimit(80)]
#[verifier::spinoff_prover]
fn decode_streamed<S: DecodePcmStream, P: ProgressSink>(
    stream: &mut S,
    output: &mut Vec<u8>,
    family: OutputFamily,
    metadata: &Metadata,
    progress: &mut P,
) -> (result: Result<DecodeSummary>)
    requires
        old(stream).is_valid(),
        old(stream).upcoming().len() * 32 <= u64::MAX,
    ensures
        final(stream).threads() == old(stream).threads(),
        refusal_is_told(*old(progress), *final(progress), result),
        failure_is_told(old(stream).failed(), final(stream).failed(), result),
        pieces_are_decoded(
            facts_of(*old(stream)),
            metadata@,
            family,
            old(progress).accepts(),
            (old(output)@, final(output)@),
            (old(progress).told(), final(progress).told()),
            result,
        ),
{
    let ghost before = facts_of(*stream);
    let ghost told = progress.told();
    let ghost mut chunks: nat = 0;
    let spec = stream.spec();
    let source_info = stream.stream_info();
    let total_frames: usize = stream.total_input_frames();
    let ghost samples = stream.upcoming();
    let ghost delivers = stream.delivers();
    let ghost accepts = progress.accepts();
    let ghost frame_total = stream.frame_total();
    let mut md5 = StreaminfoMd5::new(spec);
    let mut writer = match StreamingPcmWriter::new(Vec::new(), family, spec, metadata) {
        Ok(writer) => writer,
        Err(error) => return Err(error),
    };
    let ghost head = family_head(family, spec, metadata@)->Ok_0;
    let ghost mut frames_done: nat = 0;
    let ghost whole = whole_frames(samples, spec.channels);
    proof {
        lemma_head_has_channels(family, spec, metadata@);
        assert(samples.take(0) == Seq::<i32>::empty());
        assert(samples.skip(0) == samples);
        assert(Seq::<u8>::empty() + head == head);
        assert(head + Seq::<u8>::empty() == head);
        assert(0 * (spec.channels as int) == 0);
    }
    let chunk_frames: usize = chunk_frames_for_stream(source_info);
    let ghost all_frames = samples.len() / (spec.channels as nat);
    let mut processed_samples: u64 = 0;
    let mut chunk: Vec<i32> = Vec::new();
    assert(progress.told().take(told.len() as int) == told);
    assert(output@ + Seq::<u8>::empty() == output@);
    loop
        invariant
            before == facts_of(*old(stream)),
            told == old(progress).told(),
            total_frames == frame_total,
            chunk_frames == decode_chunk_frames(source_info),
            all_frames == samples.len() / (spec.channels as nat),
            progress.told().len() == told.len() + chunks,
            chunks_are_reported(before, metadata@, family, chunks, told, progress.told()),
            samples_told(chunks, told, progress.told()) == frames_done,
            delivers ==> {
                &&& frames_done == frames_after(chunks, chunk_frames as nat, all_frames)
                &&& chunks > 0 ==> frames_after(
                    (chunks - 1) as nat,
                    chunk_frames as nat,
                    all_frames,
                ) < all_frames
            },
            stream.is_valid(),
            spec == old(stream).description(),
            source_info == old(stream).info(),
            samples == old(stream).upcoming(),
            delivers == old(stream).delivers(),
            accepts == old(progress).accepts(),
            frame_total == old(stream).frame_total(),
            stream.description() == spec,
            stream.info() == source_info,
            stream.frame_total() == frame_total,
            delivers ==> stream.delivers(),
            accepts ==> progress.accepts(),
            progress.refused() == old(progress).refused(),
            stream.failed() == old(stream).failed(),
            stream.threads() == old(stream).threads(),
            spec.channels >= 1,
            samples.len() * 32 <= u64::MAX,
            chunk_frames >= 1,
            whole == whole_frames(samples, spec.channels),
            family_head(family, spec, metadata@) == Ok::<Seq<u8>, ErrorView>(head),
            output@ == old(output)@,
            stream.upcoming() == samples.skip((frames_done * spec.channels) as int),
            frames_done * spec.channels <= samples.len(),
            processed_samples == frames_done,
            writer.is_valid(),
            writer.family() == family,
            writer.description() == spec,
            md5.is_valid(),
            md5.layout() == digest_envelope(spec),
            streaming_state(
                family,
                spec,
                head,
                samples,
                (frames_done * spec.channels) as int,
                writer.written(),
                md5.digested(),
            ),
        ensures
            delivers ==> stream.upcoming().len() < spec.channels,
        decreases stream.upcoming().len(),
    {
        let ghost upcoming = stream.upcoming();
        let ghost count = (frames_done * spec.channels) as int;
        chunk.clear();
        let ghost cleared = chunk@;
        let frames: usize = match stream.read_chunk(chunk_frames, &mut chunk) {
            Ok(frames) => frames,
            Err(error) => {
                leave_file(
                    writer,
                    output,
                    Ghost(before),
                    Ghost((metadata@, family)),
                    Ghost(chunks),
                    Ghost(count),
                    Ghost((told, progress.told())),
                );
                return Err(error);
            },
        };
        let ghost read = choose|found: Seq<i32>|
            #![trigger cleared + found]
            chunk@ == cleared + found && handed_out(
                upcoming,
                stream.upcoming(),
                spec.channels as nat,
                frames as nat,
                found,
            );
        assert(chunk@ == read);
        if frames == 0 {
            proof {
                assert(0 * (spec.channels as int) == 0);
                assert(upcoming.skip(0) == upcoming);
                if delivers {
                    let unit = spec.channels as int;
                    assert(chunk_frames * unit >= unit) by (nonlinear_arith)
                        requires
                            chunk_frames >= 1,
                            unit >= 1,
                    ;
                    vstd::arithmetic::div_mod::lemma_fundamental_div_mod(
                        upcoming.len() as int,
                        unit,
                    );
                    vstd::arithmetic::div_mod::lemma_mod_bound(upcoming.len() as int, unit);
                    assert(unit * 0 == 0);
                    assert(upcoming.len() as int / unit == 0);
                }
            }
            break ;
        }
        let ghost written = writer.written();
        let ghost digested = md5.digested();
        let ghost mut left: int = count;
        proof {
            let unit = spec.channels as int;
            assert((frames_done + frames) * unit == frames_done * unit + frames * unit)
                by (nonlinear_arith);
            assert(frames * unit >= 1) by (nonlinear_arith)
                requires
                    frames >= 1,
                    unit >= 1,
            ;
            assert(frames_done + frames <= (frames_done + frames) * unit) by (nonlinear_arith)
                requires
                    unit >= 1,
                    frames_done + frames >= 0,
            ;
            assert(chunk@ == samples.subrange(count, count + frames * unit));
            assert(stream.upcoming() == samples.skip(((frames_done + frames) * unit) as int));
            lemma_streaming_goes_on(
                family,
                spec,
                head,
                samples,
                count,
                written,
                digested,
                chunk@,
            );
            lemma_digested_size(samples.take(count), spec, digested);
            lemma_frames_in_whole(samples.len(), spec.channels, frames_done + frames as nat);
        }
        match writer.write_samples_and_update_md5(chunk.as_slice(), &mut md5) {
            Ok(()) => {},
            Err(error) => {
                proof {
                    let end = ((samples.len() / (spec.channels as nat)) * spec.channels) as int;
                    assert(whole == samples.take(end));
                    let part = lemma_front_is_stored(
                        chunk@,
                        digest_envelope(spec),
                        family_order(family),
                    );
                    left = count + part;
                    lemma_front_of_chunk(
                        family,
                        spec,
                        head,
                        samples,
                        count,
                        written,
                        chunk@,
                        part,
                        writer.written(),
                    );
                }
                leave_file(
                    writer,
                    output,
                    Ghost(before),
                    Ghost((metadata@, family)),
                    Ghost(chunks),
                    Ghost(left),
                    Ghost((told, progress.told())),
                );
                return Err(error);
            },
        }
        proof {
            lemma_frames_due(samples.len(), spec.channels, frames_done, chunk_frames as nat);
            frames_done = frames_done + frames as nat;
        }
        let ghost earlier = progress.told();
        processed_samples = processed_samples + frames as u64;
        let snapshot = ProgressSnapshot {
            processed_samples,
            total_samples: spec.total_samples,
            completed_frames: stream.completed_input_frames(),
            total_frames,
            input_bytes_read: stream.input_bytes_processed(),
            output_bytes_written: writer.bytes_written() as u64,
        };
        let reported = progress.on_frame(snapshot);
        proof {
            assert(progress.told() == earlier.push(snapshot));
            lemma_one_more_report(
                before,
                metadata@,
                family,
                chunks,
                told,
                earlier,
                snapshot,
            );
            chunks = chunks + 1;
        }
        match reported {
            Ok(()) => {},
            Err(error) => {
                leave_file(
                    writer,
                    output,
                    Ghost(before),
                    Ghost((metadata@, family)),
                    Ghost(chunks),
                    Ghost((frames_done * spec.channels) as int),
                    Ghost((told, progress.told())),
                );
                return Err(error);
            },
        }
    }
    let ghost count = (frames_done * spec.channels) as int;
    let ghost written = writer.written();
    let ghost digested = md5.digested();
    let file = match writer.finish() {
        Ok(file) => file,
        Err(error) => return Err(error),
    };
    append_bytes(output, file.as_slice());
    let completed: usize = stream.completed_input_frames();
    let ghost reported = progress.told();
    proof {
        lemma_streamed_end(
            family,
            spec,
            source_info,
            metadata@,
            head,
            samples,
            count,
            written,
            digested,
        );
        lemma_digested_size(samples.take(count), spec, digested);
        if delivers {
            lemma_all_frames_read(samples, spec.channels, frames_done);
        }
    }
    let snapshot = ProgressSnapshot {
        processed_samples,
        total_samples: spec.total_samples,
        completed_frames: completed,
        total_frames,
        input_bytes_read: stream.input_bytes_processed(),
        output_bytes_written: output.len() as u64,
    };
    let told_last = progress.on_frame(snapshot);
    proof {
        lemma_last_report(before, metadata@, family, chunks, told, reported, snapshot);
        assert(is_refused_at_end(
            before,
            metadata@,
            family,
            chunks,
            (old(output)@, output@),
            (told, progress.told()),
        ));
    }
    match told_last {
        Ok(()) => {},
        Err(error) => return Err(error),
    }
    let digest = match md5.finalize() {
        Ok(digest) => digest,
        Err(error) => return Err(error),
    };
    match verify_streaminfo_digest(digest.as_slice(), source_info.md5.as_slice()) {
        Ok(()) => {},
        Err(error) => return Err(error),
    }
    assert(streamed_outcome(family, spec, source_info.md5@, metadata@, samples.take(count)) == Ok::<
        Seq<u8>,
        ErrorView,
    >(file@));
    proof {
        assert(front_is_decoded(before, metadata@, family, count, (old(output)@, output@)));
        if delivers {
            let after = progress.told();
            assert(after == reported.push(snapshot));
            assert(frames_done == all_frames);
            assert forall|i: int| 0 <= i < chunks implies is_chunk_report(
                before,
                metadata@,
                family,
                frames_after((i + 1) as nat, chunk_frames as nat, all_frames),
                #[trigger] after[told.len() + i],
            ) by {
                assert(after[told.len() + i] == reported[told.len() + i]);
            }
            assert(is_last_report(before, all_frames as u64, output@.len(), after.last()));
            assert(chunks_are_told(before, metadata@, family, output@.len(), told, after));
        }
    }
    Ok(summary_from_stream_info(source_info, completed))
}

/// A session that was given up left the front of a file.
proof fn lemma_front_is_left(
    stream: StreamFacts,
    metadata: MetadataView,
    family: OutputFamily,
    outputs: (Seq<u8>, Seq<u8>),
    told: (Seq<ProgressSnapshot>, Seq<ProgressSnapshot>),
)
    requires
        streaming_is_given_up(stream, metadata, family, outputs, told),
    ensures
        outputs.1 == outputs.0 || exists|count: int| #[trigger]
            is_front_of_file(stream, metadata, family, count, outputs.0, outputs.1),
{
    if family_head(family, stream.description, metadata) is Ok {
        if exists|chunks: nat, count: int| #[trigger]
            is_broken_off(stream, metadata, family, chunks, count, outputs, told) {
            let (chunks, count) = choose|chunks: nat, count: int| #[trigger]
                is_broken_off(stream, metadata, family, chunks, count, outputs, told);
            assert(samples_told(chunks, told.0, told.1) * stream.description.channels >= 0)
                by (nonlinear_arith);
            assert(is_front_of_file(stream, metadata, family, count, outputs.0, outputs.1));
        } else {
            let chunks = choose|chunks: nat| #[trigger]
                is_refused_at_end(stream, metadata, family, chunks, outputs, told);
            let processed = samples_told(chunks, told.0, told.1);
            let count = (processed * stream.description.channels) as int;
            assert(count >= 0) by (nonlinear_arith)
                requires
                    count == processed * stream.description.channels,
                    processed >= 0,
            ;
            assert(is_front_of_file(stream, metadata, family, count, outputs.0, outputs.1));
        }
    }
}

/// Decodes what a stream hands out into a PCM container. A read that fails ends it with
/// the error of the read.
#[verifier::rlimit(60)]
#[verifier::spinoff_prover]
pub fn decode_from_stream<S: DecodePcmStream, P: ProgressSink>(
    stream: &mut S,
    output: &mut Vec<u8>,
    metadata: &Metadata,
    config: DecodeConfig,
    progress: &mut P,
) -> (result: Result<DecodeSummary>)
    requires
        old(stream).is_valid(),
        old(stream).threads() == config@.threads,
        old(stream).upcoming().len() * 32 <= u64::MAX,
    ensures
        refusal_is_told(*old(progress), *final(progress), result),
        failure_is_told(old(stream).failed(), final(stream).failed(), result),
        is_decoded(
            facts_of(*old(stream)),
            metadata@,
            config@.output_container,
            old(output)@,
            final(output)@,
            old(progress).accepts(),
            result,
        ),
        final(stream).threads() == old(stream).threads(),
        result is Ok ==> decode_is_told(
            facts_of(*old(stream)),
            metadata@,
            config@.output_container,
            final(output)@.len(),
            old(progress).told(),
            final(progress).told(),
        ),
        result is Err ==> decode_is_given_up(
            facts_of(*old(stream)),
            metadata@,
            config@.output_container,
            (old(output)@, final(output)@),
            (old(progress).told(), final(progress).told()),
        ),
{
    let container = config.output_container();
    let family = family_for(container);
    let ghost whole_stream = facts_of(*stream);
    let spec = stream.spec();
    let source_info = stream.stream_info();
    if should_materialize_decode(spec.total_samples) {
        match stream.take_decoded_samples() {
            Err(error) => return Err(error),
            Ok(Some((samples, frames))) => {
                let input_bytes: u64 = stream.input_bytes_processed();
                let result = decode_whole(
                    output,
                    family,
                    spec,
                    source_info,
                    metadata,
                    samples.as_slice(),
                    frames,
                    input_bytes,
                    progress,
                );
                proof {
                    assert(samples@.take(samples@.len() as int) == samples@);
                    if progress.told().len() > old(progress).told().len() {
                        assert(progress.told().drop_last() == old(progress).told());
                    }
                    if result is Ok {
                        let file = whole_outcome(
                            family,
                            spec,
                            source_info.md5@,
                            metadata@,
                            samples@,
                        )->Ok_0;
                        assert(is_file_of(
                            whole_stream,
                            metadata@,
                            container,
                            file,
                            samples@.len() as int,
                        ));
                    }
                }
                return result;
            },
            Ok(None) => {},
        }
    }
    assert(facts_of(*stream) == whole_stream);
    let result = decode_streamed(stream, output, family, metadata, progress);
    proof {
        lemma_pieces_are_decoded(
            whole_stream,
            metadata@,
            container,
            old(progress).accepts(),
            (old(output)@, output@),
            (old(progress).told(), progress.told()),
            result,
        );
    }
    result
}

/// Decodes a stream into a PCM container.
pub fn decode_stream_to_container<S: DecodePcmStream, P: ProgressSink>(
    stream: S,
    output: &mut Vec<u8>,
    metadata: Metadata,
    config: DecodeConfig,
    progress: &mut P,
) -> (result: Result<DecodeSummary>)
    requires
        stream.is_valid(),
        stream.threads() == config@.threads,
        stream.upcoming().len() * 32 <= u64::MAX,
    ensures
        refusal_is_told(*old(progress), *final(progress), result),
        is_decoded(
            facts_of(stream),
            emitted(metadata@, config@.emit_fxmd),
            config@.output_container,
            old(output)@,
            final(output)@,
            old(progress).accepts(),
            result,
        ),
        result is Ok ==> decode_is_told(
            facts_of(stream),
            emitted(metadata@, config@.emit_fxmd),
            config@.output_container,
            final(output)@.len(),
            old(progress).told(),
            final(progress).told(),
        ),
        result is Err ==> decode_is_given_up(
            facts_of(stream),
            emitted(metadata@, config@.emit_fxmd),
            config@.output_container,
            (old(output)@, final(output)@),
            (old(progress).told(), final(progress).told()),
        ),
{
    let mut stream = stream;
    let metadata = if config.emit_fxmd() {
        metadata
    } else {
        metadata.without_kept_blocks()
    };
    decode_from_stream(&mut stream, output, &metadata, config, progress)
}

} // verus!
